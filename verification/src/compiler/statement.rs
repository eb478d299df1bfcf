//! Statements and functions.

use crate::compiler::cast::cast_u8;
use crate::compiler::error::{CompilerError, Feature, Halt};
use crate::compiler::model;
use crate::compiler::model::ExprDestination;
use crate::compiler::operators::comparison_binop_opcode;
use crate::compiler::size::{
    arms_size, block_size, call_size, definition_size, expression_size, expressions_size,
    statement_size, statements_size, suffixed_size, target_size, targets_size, weight, weights,
};
use crate::compiler::state::{
    agrees, agrees_view, descs_view, Compiler, ExprDescriptor, VariableDescriptor,
};
use crate::function::FunctionProto;
use crate::opcode::{OpCode, PrototypeIndex, RegisterIndex, VarCount};
use crate::parser::{
    AssignmentStatement, AssignmentTarget, Block, CallSuffix, Expression, FunctionCallStatement,
    FunctionDefinition, FunctionName, FunctionStatement, IfStatement, LocalStatement,
    ReturnStatement, Statement,
};
use crate::value::Value;
use vstd::pervasive::unreached;
use vstd::prelude::*;

verus! {

/// Positions of instructions as numbers.
pub open spec fn positions(jumps: Seq<usize>) -> Seq<int> {
    jumps.map_values(|j: usize| j as int)
}

/// A function name without fields and without a method.
pub open spec fn plain_name(name: FunctionName) -> bool {
    name.fields@.len() == 0 && name.method is None
}

/// Whether the compiler knows this kind of statement.
pub open spec fn known_statement(statement: Statement) -> bool {
    match statement {
        Statement::If(_) => true,
        Statement::Do(_) => true,
        Statement::Function(f) => plain_name(f.name),
        Statement::LocalFunction(f) => plain_name(f.name),
        Statement::LocalStatement(_) => true,
        Statement::FunctionCall(_) => true,
        Statement::Assignment(_) => true,
        _ => false,
    }
}

impl<'a> Compiler<'a> {
    #[verifier::spinoff_prover]
    pub(crate) fn block(&mut self, block: &'a Block) -> (result: Result<(), Halt>)
        requires
            !model::broken(model::block(old(self)@, *block)),
            old(self).ready(),
        ensures
            agrees(model::block(old(self)@, *block), result, final(self)@),
            result is Ok ==> final(self).ready_like(*old(self)),
        decreases block_size(*block), 6nat,
    {
        proof {
            reveal(model::block);
            reveal(model::statements);
        }
        let first_local: usize = self.local_count();
        let ghost statements = block.statements@;
        let mut i: usize = 0;
        #[verifier::loop_isolation(false)]
        while i < block.statements.len()
            invariant
                self.ready_like(*old(self)),
                statements == block.statements@,
                i <= statements.len(),
                statements_size(statements, i as int) < block_size(*block),
                model::statements(old(self)@, statements, 0) == model::statements(
                    self@,
                    statements,
                    i as int,
                ),
            decreases statements.len() - i,
        {
            self.any_statement(&block.statements[i])?;
            i += 1;
        }
        if let Some(return_statement) = &block.return_statement {
            self.return_statement(return_statement)?;
        }
        self.end_scope(first_local)
    }

    /// Compiles a statement, or stops where the compiler does not know its kind.
    #[verifier::spinoff_prover]
    pub(crate) fn any_statement(&mut self, statement: &'a Statement) -> (result: Result<(), Halt>)
        requires
            !model::broken(model::statement(old(self)@, *statement)),
            old(self).ready(),
        ensures
            agrees(model::statement(old(self)@, *statement), result, final(self)@),
            result is Ok ==> final(self).ready_like(*old(self)),
        decreases statement_size(*statement), 7nat,
    {
        proof {
            reveal(model::statement);
            reveal(model::function_statement);
            reveal(model::local_function);
        }
        match statement {
            Statement::While(_) => Err(Halt::Unsupported(Feature::While)),
            Statement::For(_) => Err(Halt::Unsupported(Feature::For)),
            Statement::Repeat(_) => Err(Halt::Unsupported(Feature::Repeat)),
            Statement::Label(_) => Err(Halt::Unsupported(Feature::Label)),
            Statement::Break => Err(Halt::Unsupported(Feature::Break)),
            Statement::Goto(_) => Err(Halt::Unsupported(Feature::Goto)),
            Statement::Function(function) | Statement::LocalFunction(function) => {
                if function.name.fields.len() != 0 {
                    return Err(Halt::Unsupported(Feature::FunctionNameFields));
                }
                if function.name.method.is_some() {
                    return Err(Halt::Unsupported(Feature::FunctionNameMethod));
                }
                self.statement(statement)
            },
            _ => self.statement(statement),
        }
    }

    /// Compiles a statement of a kind that the compiler knows.
    #[verifier::spinoff_prover]
    pub(crate) fn statement(&mut self, statement: &'a Statement) -> (result: Result<(), Halt>)
        requires
            known_statement(*statement),
            !model::broken(model::statement(old(self)@, *statement)),
            old(self).ready(),
        ensures
            agrees(model::statement(old(self)@, *statement), result, final(self)@),
            result is Ok ==> final(self).ready_like(*old(self)),
        decreases statement_size(*statement), 6nat,
    {
        proof {
            reveal(model::statement);
        }
        match statement {
            Statement::If(if_statement) => self.if_statement(if_statement),
            Statement::Do(block) => self.block(block),
            Statement::Function(function_statement) => self.function_statement(function_statement),
            Statement::LocalFunction(local_function) => self.local_function(local_function),
            Statement::LocalStatement(local_statement) => self.local_statement(local_statement),
            Statement::FunctionCall(function_call) => self.function_call(function_call),
            Statement::Assignment(assignment) => self.assignment(assignment),
            Statement::While(_) | Statement::For(_) | Statement::Repeat(_) | Statement::Label(_)
            | Statement::Break | Statement::Goto(_) => unreached(),
        }
    }

    /// The test of an `if`.
    #[verifier::spinoff_prover]
    pub(crate) fn condition(&mut self, condition: &'a Expression) -> (result: Result<(), Halt>)
        requires
            !model::broken(model::condition(old(self)@, *condition)),
            old(self).ready(),
        ensures
            agrees(model::condition(old(self)@, *condition), result, final(self)@),
            result is Ok ==> final(self).ready_like(*old(self)),
        decreases expression_size(*condition), 7nat,
    {
        proof {
            reveal(model::condition);
        }
        match self.expression(condition)? {
            ExprDescriptor::Comparison { left, op, right } => {
                let (left, right) = self.operands(*left, *right)?;
                self.emit(comparison_binop_opcode(op, left, right));
            },
            ExprDescriptor::Not(operand) => {
                let value = self.operand_register(*operand)?;
                self.emit(OpCode::Test { value, is_true: false });
            },
            operand => {
                let value = self.operand_register(operand)?;
                self.emit(OpCode::Test { value, is_true: true });
            },
        }
        Ok(())
    }

    /// One arm of an `if`. The result is the jump past the arm; the jump to the end is added to
    /// `ends`.
    #[verifier::spinoff_prover]
    pub(crate) fn if_arm(
        &mut self,
        condition: &'a Expression,
        block: &'a Block,
        next: Option<usize>,
        ends: &mut Vec<usize>,
    ) -> (result: Result<usize, Halt>)
        requires
            !model::broken(
                model::if_arm(
                    old(self)@,
                    *condition,
                    *block,
                    match next {
                        Some(j) => Some(j as int),
                        None => None,
                    },
                    positions(old(ends)@),
                ),
            ),
            old(self).ready(),
        ensures
            match model::if_arm(
                old(self)@,
                *condition,
                *block,
                match next {
                    Some(j) => Some(j as int),
                    None => None,
                },
                positions(old(ends)@),
            ) {
                Ok((st, (next, all))) => result is Ok && result->Ok_0 == next && positions(
                    final(ends)@,
                ) == all && final(self)@ == st,
                Err((st, stop)) => {
                    &&& result is Err
                    &&& stop == model::reason(result->Err_0)
                    &&& final(self)@ == st
                },
            },
            result is Ok ==> final(self).ready_like(*old(self)),
        decreases expression_size(*condition) + block_size(*block), 8nat,
    {
        proof {
            reveal(model::jump_here);
            reveal(model::if_arm);
        }
        if let Some(jump) = next {
            self.jump_here(jump)?;
        }
        self.condition(condition)?;
        let next: usize = self.jump_placeholder();
        self.block(block)?;
        let end: usize = self.jump_placeholder();
        ends.push(end);
        assert(positions(ends@) =~= positions(old(ends)@).push(end as int));
        Ok(next)
    }

    /// Completes jumps to the next instruction.
    #[verifier::spinoff_prover]
    pub(crate) fn jumps_here(&mut self, jumps: &Vec<usize>) -> (result: Result<(), Halt>)
        requires
            !model::broken(model::jumps_here(old(self)@, positions(jumps@), 0)),
            old(self).ready(),
        ensures
            agrees(model::jumps_here(old(self)@, positions(jumps@), 0), result, final(self)@),
            result is Ok ==> final(self).ready_like(*old(self)),
    {
        proof {
            reveal(model::jump_here);
        }
        let mut i: usize = 0;
        #[verifier::loop_isolation(false)]
        while i < jumps.len()
            invariant
                self.ready_like(*old(self)),
                i <= jumps@.len(),
                model::jumps_here(old(self)@, positions(jumps@), 0) == model::jumps_here(
                    self@,
                    positions(jumps@),
                    i as int,
                ),
            decreases jumps@.len() - i,
        {
            assert(positions(jumps@)[i as int] == jumps@[i as int]);
            self.jump_here(jumps[i])?;
            i += 1;
        }
        Ok(())
    }

    #[verifier::spinoff_prover]
    pub(crate) fn if_statement(
        &mut self,
        if_statement: &'a IfStatement,
    ) -> (result: Result<(), Halt>)
        requires
            !model::broken(model::if_statement(old(self)@, *if_statement)),
            old(self).ready(),
        ensures
            agrees(model::if_statement(old(self)@, *if_statement), result, final(self)@),
            result is Ok ==> final(self).ready_like(*old(self)),
        decreases statement_size(Statement::If(*if_statement)), 5nat,
    {
        proof {
            reveal(model::jump_here);
            reveal(model::if_statement);
            reveal(model::if_arms);
        }
        let mut ends: Vec<usize> = Vec::new();
        assert(positions(ends@) =~= Seq::empty());
        let ghost arms = if_statement.else_if_parts@;
        let mut next: usize = self.if_arm(
            &if_statement.if_part.0,
            &if_statement.if_part.1,
            None,
            &mut ends,
        )?;
        let ghost goal = model::if_arms(self@, arms, 0, next as int, positions(ends@));
        let mut i: usize = 0;
        #[verifier::loop_isolation(false)]
        while i < if_statement.else_if_parts.len()
            invariant
                self.ready_like(*old(self)),
                i <= arms.len(),
                arms_size(arms, i as int) < statement_size(Statement::If(*if_statement)),
                goal == model::if_arms(self@, arms, i as int, next as int, positions(ends@)),
            decreases arms.len() - i,
        {
            next = self.if_arm(
                &if_statement.else_if_parts[i].0,
                &if_statement.else_if_parts[i].1,
                Some(next),
                &mut ends,
            )?;
            i += 1;
        }
        match &if_statement.else_part {
            Some(else_block) => {
                self.jump_here(next)?;
                self.block(else_block)?;
            },
            None => {
                let ghost before = ends@;
                ends.push(next);
                assert(positions(ends@) =~= positions(before).push(next as int));
            },
        }
        self.jumps_here(&ends)
    }

    #[verifier::spinoff_prover]
    pub(crate) fn function_statement(
        &mut self,
        function_statement: &'a FunctionStatement,
    ) -> (result: Result<(), Halt>)
        requires
            plain_name(function_statement.name),
            !model::broken(model::function_statement(old(self)@, *function_statement)),
            old(self).ready(),
        ensures
            agrees(
                model::function_statement(old(self)@, *function_statement),
                result,
                final(self)@,
            ),
            result is Ok ==> final(self).ready_like(*old(self)),
        decreases definition_size(function_statement.definition), 8nat,
    {
        proof {
            reveal(model::function_statement);
        }
        let proto = self.new_prototype(&function_statement.definition)?;
        let env = self.get_environment()?;
        let dest = self.closure(proto)?;
        self.write_field(
            env,
            ExprDescriptor::Value(Value::String(&*function_statement.name.name)),
            ExprDescriptor::Register { register: dest, is_temporary: true },
        )
    }

    #[verifier::spinoff_prover]
    pub(crate) fn local_function(
        &mut self,
        local_function: &'a FunctionStatement,
    ) -> (result: Result<(), Halt>)
        requires
            plain_name(local_function.name),
            !model::broken(model::local_function(old(self)@, *local_function)),
            old(self).ready(),
        ensures
            agrees(model::local_function(old(self)@, *local_function), result, final(self)@),
            result is Ok ==> final(self).ready_like(*old(self)),
        decreases definition_size(local_function.definition), 8nat,
    {
        proof {
            reveal(model::local_function);
        }
        let proto = self.new_prototype(&local_function.definition)?;
        let dest = self.closure(proto)?;
        self.bind(&*local_function.name.name, dest);
        Ok(())
    }

    #[verifier::spinoff_prover]
    pub(crate) fn return_statement(
        &mut self,
        return_statement: &'a ReturnStatement,
    ) -> (result: Result<(), Halt>)
        requires
            !model::broken(model::return_statement(old(self)@, *return_statement)),
            old(self).ready(),
        ensures
            agrees(model::return_statement(old(self)@, *return_statement), result, final(self)@),
            result is Ok ==> final(self).ready_like(*old(self)),
        decreases expressions_size(return_statement.returns@, 0), 8nat,
    {
        proof {
            reveal(model::return_statement);
            reveal(model::push_returns);
        }
        let ghost values = return_statement.returns@;
        let ret_len: usize = return_statement.returns.len();
        if ret_len == 0 {
            self.emit(OpCode::Return { start: RegisterIndex(0), count: VarCount::make_zero() });
            return Ok(());
        }
        let ret_start: u8 = match cast_u8(self.stack_top() as usize) {
            Some(r) => r,
            None => {
                return Err(Halt::Error(CompilerError::Registers));
            },
        };
        let ghost start = self@;
        let mut i: usize = 0;
        #[verifier::loop_isolation(false)]
        while i < ret_len - 1
            invariant
                self.ready_like(*old(self)),
                i <= ret_len - 1,
                expressions_size(values, i as int) <= expressions_size(values, 0),
                model::push_returns(start, values, 0) == model::push_returns(
                    self@,
                    values,
                    i as int,
                ),
            decreases ret_len - i,
        {
            let expr = self.expression(&return_statement.returns[i])?;
            self.expr_discharge(expr, ExprDestination::PushNew)?;
            i += 1;
        }
        let count = match self.expression(&return_statement.returns[ret_len - 1])? {
            ExprDescriptor::FunctionCall { func, args } => {
                self.expr_function_call(*func, args, VarCount::make_variable())?;
                VarCount::make_variable()
            },
            expr => {
                self.expr_discharge(expr, ExprDestination::PushNew)?;
                let count: Option<VarCount> = match cast_u8(ret_len) {
                    Some(n) => VarCount::make_constant(n),
                    None => None,
                };
                match count {
                    Some(count) => count,
                    None => {
                        return Err(Halt::Error(CompilerError::Returns));
                    },
                }
            },
        };
        self.emit(OpCode::Return { start: RegisterIndex(ret_start), count });
        // All registers of return values are given back, so that none of them leaks.
        self.pop_to(ret_start as u16);
        Ok(())
    }

    /// A call as the last value of a local statement.
    #[verifier::spinoff_prover]
    pub(crate) fn local_call(
        &mut self,
        names: &'a Vec<Box<[u8]>>,
        i: usize,
        func: ExprDescriptor<'a>,
        args: Vec<ExprDescriptor<'a>>,
    ) -> (result: Result<(), Halt>)
        requires
            !model::broken(
                model::local_call(old(self)@, names@, i as int, func@, descs_view(args@)),
            ),
            old(self).ready(),
            i < names@.len(),
        ensures
            agrees(
                model::local_call(old(self)@, names@, i as int, func@, descs_view(args@)),
                result,
                final(self)@,
            ),
            result is Ok ==> final(self).ready_like(*old(self)),
        decreases weight(func@) + weights(descs_view(args@), 0), 4nat,
    {
        proof {
            reveal(model::local_call);
        }
        let num_returns: u8 = match cast_u8(names.len() - i) {
            Some(n) => n,
            None => {
                return Err(Halt::Error(CompilerError::Registers));
            },
        };
        let count = match VarCount::make_constant(num_returns) {
            Some(count) => count,
            None => {
                return Err(Halt::Error(CompilerError::Returns));
            },
        };
        self.expr_function_call(func, args, count)?;
        let first = self.push_registers(num_returns)?;
        let ghost start = self@;
        let mut j: u8 = 0;
        #[verifier::loop_isolation(false)]
        while j < num_returns
            invariant
                self.ready_like(*old(self)),
                j <= num_returns,
                i + num_returns == names@.len(),
                first.0 + num_returns <= 256,
                self@ == model::bind_names(start, names@, i as int, first, j as int),
            decreases num_returns - j,
        {
            self.bind(&*names[i + j as usize], RegisterIndex(first.0 + j));
            j += 1;
        }
        Ok(())
    }

    #[verifier::spinoff_prover]
    pub(crate) fn local_statement(
        &mut self,
        local_statement: &'a LocalStatement,
    ) -> (result: Result<(), Halt>)
        requires
            !model::broken(model::local_statement(old(self)@, *local_statement)),
            old(self).ready(),
        ensures
            agrees(model::local_statement(old(self)@, *local_statement), result, final(self)@),
            result is Ok ==> final(self).ready_like(*old(self)),
        decreases expressions_size(local_statement.values@, 0), 8nat,
    {
        proof {
            reveal(model::local_statement);
            reveal(model::local_values);
        }
        let ghost names = local_statement.names@;
        let ghost values = local_statement.values@;
        let ghost goal = model::local_values(self@, names, values, 0);
        let name_len: usize = local_statement.names.len();
        let val_len: usize = local_statement.values.len();
        let mut i: usize = 0;
        #[verifier::loop_isolation(false)]
        while i < val_len
            invariant
                self.ready_like(*old(self)),
                names == local_statement.names@,
                values == local_statement.values@,
                name_len == names.len(),
                val_len == values.len(),
                i <= val_len,
                expressions_size(values, i as int) <= expressions_size(values, 0),
                goal == model::local_statement(old(self)@, *local_statement),
                goal == model::local_values(self@, names, values, i as int),
            decreases val_len - i,
        {
            let expr = self.expression(&local_statement.values[i])?;
            if i >= name_len {
                self.expr_discharge(expr, ExprDestination::Nowhere)?;
            } else if i == val_len - 1 {
                match expr {
                    ExprDescriptor::FunctionCall { func, args } => {
                        return self.local_call(&local_statement.names, i, *func, args);
                    },
                    expr => {
                        self.local_value(&*local_statement.names[i], expr)?;
                    },
                }
            } else {
                self.local_value(&*local_statement.names[i], expr)?;
            }
            i += 1;
        }
        let mut i: usize = val_len;
        #[verifier::loop_isolation(false)]
        while i < name_len
            invariant
                self.ready_like(*old(self)),
                names == local_statement.names@,
                name_len == names.len(),
                i <= name_len || i == val_len,
                goal == model::local_statement(old(self)@, *local_statement),
                goal == model::local_nils(self@, names, i as int),
            decreases name_len - i,
        {
            let register = self.allocate()?;
            self.load_nil(register)?;
            self.bind(&*local_statement.names[i], register);
            i += 1;
        }
        Ok(())
    }

    /// Places a value in a register of its own and gives it a name.
    #[verifier::spinoff_prover]
    pub(crate) fn local_value(
        &mut self,
        name: &'a [u8],
        expr: ExprDescriptor<'a>,
    ) -> (result: Result<(), Halt>)
        requires
            !model::broken(model::discharge(old(self)@, expr@, ExprDestination::AllocateNew)),
            !(model::discharge(old(self)@, expr@, ExprDestination::AllocateNew) matches Ok(
                (_, None),
            )),
            old(self).ready(),
        ensures
            match model::discharge(old(self)@, expr@, ExprDestination::AllocateNew) {
                Ok((st, Some(r))) => result is Ok && final(self)@ == model::bind(st, name@, r),
                Ok((_, None)) => false,
                Err((st, stop)) => {
                    &&& result is Err
                    &&& stop == model::reason(result->Err_0)
                    &&& final(self)@ == st
                },
            },
            result is Ok ==> final(self).ready_like(*old(self)),
        decreases weight(expr@), 1nat,
    {
        match self.expr_discharge(expr, ExprDestination::AllocateNew)? {
            Some(register) => {
                self.bind(name, register);
                Ok(())
            },
            None => unreached(),
        }
    }

    #[verifier::spinoff_prover]
    pub(crate) fn function_call(
        &mut self,
        function_call: &'a FunctionCallStatement,
    ) -> (result: Result<(), Halt>)
        requires
            !model::broken(model::function_call(old(self)@, *function_call)),
            old(self).ready(),
        ensures
            agrees(model::function_call(old(self)@, *function_call), result, final(self)@),
            result is Ok ==> final(self).ready_like(*old(self)),
        decreases suffixed_size(function_call.head) + call_size(function_call.call), 6nat,
    {
        proof {
            reveal(model::function_call);
        }
        let func = self.suffixed_expression(&function_call.head)?;
        match &function_call.call {
            CallSuffix::Function(args) => {
                let args = self.expressions(args)?;
                self.expr_function_call(func, args, VarCount::make_zero())?;
                Ok(())
            },
            CallSuffix::Method(_, _) => Err(Halt::Unsupported(Feature::MethodCallStatement)),
        }
    }

    #[verifier::spinoff_prover]
    pub(crate) fn assignment(
        &mut self,
        assignment: &'a AssignmentStatement,
    ) -> (result: Result<(), Halt>)
        requires
            !model::broken(model::assignment(old(self)@, *assignment)),
            old(self).ready(),
        ensures
            agrees(model::assignment(old(self)@, *assignment), result, final(self)@),
            result is Ok ==> final(self).ready_like(*old(self)),
        decreases
            targets_size(assignment.targets@, 0) + expressions_size(assignment.values@, 0),
            8nat,
    {
        proof {
            reveal(model::assignment);
            reveal(model::assignments);
        }
        let ghost targets = assignment.targets@;
        let ghost values = assignment.values@;
        let ghost goal = model::assignments(self@, targets, values, 0);
        let mut i: usize = 0;
        #[verifier::loop_isolation(false)]
        while i < assignment.targets.len()
            invariant
                self.ready_like(*old(self)),
                targets == assignment.targets@,
                values == assignment.values@,
                i <= targets.len(),
                targets_size(targets, i as int) + expressions_size(values, i as int)
                    <= targets_size(targets, 0) + expressions_size(values, 0),
                goal == model::assignment(old(self)@, *assignment),
                goal == model::assignments(self@, targets, values, i as int),
            decreases targets.len() - i,
        {
            let expr = self.assigned_value(&assignment.values, i)?;
            self.assign(&assignment.targets[i], expr)?;
            i += 1;
        }
        Ok(())
    }

    /// The value that belongs to the `i`th target: nil where there is none.
    #[verifier::spinoff_prover]
    pub(crate) fn assigned_value(
        &mut self,
        values: &'a Vec<Expression>,
        i: usize,
    ) -> (result: Result<ExprDescriptor<'a>, Halt>)
        requires
            !model::broken(model::assigned_value(old(self)@, values@, i as int)),
            old(self).ready(),
        ensures
            agrees_view(
                model::assigned_value(old(self)@, values@, i as int),
                result,
                final(self)@,
            ),
            result is Ok ==> final(self).ready_like(*old(self)),
            result matches Ok(d) ==> weight(d@) <= model::assigned_size(values@, i as int),
        decreases expressions_size(values@, i as int), 6nat,
    {
        proof {
            reveal(model::assigned_value);
        }
        if i < values.len() {
            self.expression(&values[i])
        } else {
            Ok(ExprDescriptor::Value(Value::Nil))
        }
    }

    /// Assigns a value to a target.
    #[verifier::spinoff_prover]
    pub(crate) fn assign(
        &mut self,
        target: &'a AssignmentTarget,
        expr: ExprDescriptor<'a>,
    ) -> (result: Result<(), Halt>)
        requires
            !model::broken(model::assign(old(self)@, *target, expr@)),
            old(self).ready(),
        ensures
            agrees(model::assign(old(self)@, *target, expr@), result, final(self)@),
            result is Ok ==> final(self).ready_like(*old(self)),
        decreases target_size(*target) + weight(expr@), 6nat,
    {
        proof {
            reveal(model::assign);
        }
        match target {
            AssignmentTarget::Name(name) => match self.find_variable(&**name)? {
                VariableDescriptor::Local(dest) => {
                    self.expr_discharge(expr, ExprDestination::Register(dest))?;
                    Ok(())
                },
                VariableDescriptor::UpValue(dest) => {
                    let mut expr: ExprDescriptor<'a> = expr;
                    let source = self.expr_any_register(&mut expr)?;
                    self.emit(OpCode::SetUpValue { source, dest });
                    self.release(expr)
                },
                VariableDescriptor::Global(name) => {
                    let env = self.get_environment()?;
                    self.write_field(env, ExprDescriptor::Value(Value::String(name)), expr)
                },
            },
            AssignmentTarget::Field(table, field) => {
                let table = self.suffixed_expression(table)?;
                let key = self.field_key(field)?;
                self.write_field(table, key, expr)
            },
        }
    }

    /// Compiles a function and adds it to those written inside the innermost one.
    #[verifier::spinoff_prover]
    pub(crate) fn new_prototype(&mut self, function: &'a FunctionDefinition) -> (result: Result<
        PrototypeIndex,
        Halt,
    >)
        requires
            !model::broken(model::new_prototype(old(self)@, *function)),
            old(self).ready(),
        ensures
            agrees(model::new_prototype(old(self)@, *function), result, final(self)@),
            result is Ok ==> final(self).ready_like(*old(self)),
        decreases definition_size(*function), 6nat,
    {
        proof {
            reveal(model::new_prototype);
        }
        let proto = self.compile_function(
            function.parameters.as_slice(),
            function.has_varargs,
            &function.body,
        )?;
        self.add_prototype(proto)
    }

    /// Compiles a function inside those that are being compiled.
    #[verifier::spinoff_prover]
    pub(crate) fn compile_function(
        &mut self,
        parameters: &'a [Box<[u8]>],
        has_varargs: bool,
        body: &'a Block,
    ) -> (result: Result<FunctionProto<'a>, Halt>)
        requires
            !model::broken(model::compile_function(old(self)@, parameters@, has_varargs, *body)),
            old(self).in_order(),
        ensures
            agrees_view(
                model::compile_function(old(self)@, parameters@, has_varargs, *body),
                result,
                final(self)@,
            ),
            result is Ok ==> final(self).in_order() && final(self)@.len() == old(self)@.len(),
            parameters@.len() > u8::MAX ==> result == Err::<FunctionProto<'a>, Halt>(
                Halt::Error(CompilerError::FixedParameters),
            ) && final(self)@ == old(self)@,
        decreases block_size(*body), 7nat,
    {
        proof {
            reveal(model::compile_function);
        }
        let fixed_params: u8 = match cast_u8(parameters.len()) {
            Some(n) => n,
            None => {
                return Err(Halt::Error(CompilerError::FixedParameters));
            },
        };
        self.begin_function(parameters, fixed_params, has_varargs);
        self.block(body)?;
        self.finish()
    }
}

} // verus!
