//! Expressions: how they are compiled, and how their values are placed.

use crate::compiler::cast::cast_u8;
use crate::compiler::error::{CompilerError, Feature, Halt};
use crate::compiler::model;
use crate::compiler::model::{done, is_leaf, Desc, ExprDestination};
use crate::compiler::operators::{
    categorize_binop, comparison_binop_const_fold, comparison_binop_opcode, simple_binop_const_fold,
    simple_binop_opcode, unop_const_fold, unop_opcode, BinOpCategory, RegisterOrConstant,
    ShortCircuitBinOp, SimpleBinOp,
};
use crate::compiler::size::{
    call_size, definition_size, expression_size, expressions_size, field_size, head_size,
    lemma_weights_index, lemma_weights_push, primary_size, simple_size, suffix_size, suffixed_size,
    suffixes_size, tail_size, weight, weights,
};
use crate::compiler::state::{
    agrees, agrees_list, agrees_view, descs_view, lemma_descs_view, Compiler, ExprDescriptor,
    VariableDescriptor,
};
use crate::opcode::{ConstantIndex8, OpCode, PrototypeIndex, RegisterIndex, UpValueIndex, VarCount};
use crate::parser::{
    BinaryOperator, CallSuffix, Expression, FieldSuffix, FunctionDefinition, HeadExpression,
    PrimaryExpression, SimpleExpression, SuffixPart, SuffixedExpression, TableConstructor,
    UnaryOperator,
};
use crate::value::Value;
use vstd::pervasive::unreached;
use vstd::prelude::*;

verus! {

impl<'a> Compiler<'a> {
    /// Places the value of a register.
    #[verifier::spinoff_prover]
    pub(crate) fn place_register(
        &mut self,
        source: RegisterIndex,
        is_temporary: bool,
        dest: ExprDestination,
    ) -> (result: Result<Option<RegisterIndex>, Halt>)
        requires
            !model::broken(model::place_register(old(self)@, source, is_temporary, dest)),
            old(self).ready(),
        ensures
            agrees(
                model::place_register(old(self)@, source, is_temporary, dest),
                result,
                final(self)@,
            ),
            result is Ok ==> final(self).ready_like(*old(self)),
    {
        proof {
            reveal(model::free_register);
            reveal(model::place_register);
        }
        if dest == ExprDestination::AllocateNew && is_temporary {
            return Ok(Some(source));
        }
        if is_temporary {
            self.free_register(source)?;
        }
        match self.new_destination(dest)? {
            Some(dest) => {
                if dest != source {
                    self.emit(OpCode::Move { dest, source });
                }
                Ok(Some(dest))
            },
            None => Ok(None),
        }
    }

    /// Places the value of an upvalue.
    #[verifier::spinoff_prover]
    pub(crate) fn place_upvalue(
        &mut self,
        source: UpValueIndex,
        dest: ExprDestination,
    ) -> (result: Result<Option<RegisterIndex>, Halt>)
        requires
            !model::broken(model::place_upvalue(old(self)@, source, dest)),
            old(self).ready(),
        ensures
            agrees(model::place_upvalue(old(self)@, source, dest), result, final(self)@),
            result is Ok ==> final(self).ready_like(*old(self)),
    {
        proof {
            reveal(model::place_upvalue);
        }
        match self.new_destination(dest)? {
            Some(dest) => {
                self.emit(OpCode::GetUpValue { source, dest });
                Ok(Some(dest))
            },
            None => Ok(None),
        }
    }

    /// Places a constant.
    #[verifier::spinoff_prover]
    pub(crate) fn place_value(
        &mut self,
        value: Value<'a>,
        dest: ExprDestination,
    ) -> (result: Result<Option<RegisterIndex>, Halt>)
        requires
            !model::broken(model::place_value(old(self)@, value@, dest)),
            old(self).ready(),
        ensures
            agrees(model::place_value(old(self)@, value@, dest), result, final(self)@),
            result is Ok ==> final(self).ready_like(*old(self)),
    {
        proof {
            reveal(model::place_value);
        }
        match self.new_destination(dest)? {
            Some(dest) => {
                match value {
                    Value::Nil => {
                        self.load_nil(dest)?;
                    },
                    Value::Boolean(value) => {
                        self.emit(OpCode::LoadBool { dest, value, skip_next: false });
                    },
                    value => {
                        let constant = self.get_constant(value)?;
                        self.emit(OpCode::LoadConstant { dest, constant });
                    },
                }
                Ok(Some(dest))
            },
            None => Ok(None),
        }
    }

    /// Places the first result of a call, which lies in `source` at the top of the stack.
    #[verifier::spinoff_prover]
    pub(crate) fn place_result(
        &mut self,
        source: RegisterIndex,
        dest: ExprDestination,
    ) -> (result: Result<Option<RegisterIndex>, Halt>)
        requires
            !model::broken(model::place_result(old(self)@, source, dest)),
            old(self).ready(),
        ensures
            agrees(model::place_result(old(self)@, source, dest), result, final(self)@),
            result is Ok ==> final(self).ready_like(*old(self)),
    {
        proof {
            reveal(model::place_result);
        }
        match dest {
            ExprDestination::Register(dest) => {
                if dest == source {
                    return unreached();
                }
                self.emit(OpCode::Move { dest, source });
                Ok(Some(dest))
            },
            ExprDestination::AllocateNew | ExprDestination::PushNew => {
                if self.push_registers(1)? != source {
                    return unreached();
                }
                Ok(Some(source))
            },
            ExprDestination::Nowhere => Ok(None),
        }
    }

    /// The instructions that compare two operands and load the outcome into a register.
    #[verifier::spinoff_prover]
    pub(crate) fn place_comparison(&mut self, compare: OpCode, dest: Option<RegisterIndex>)
        requires
            old(self).ready(),
        ensures
            final(self)@ == model::place_comparison(old(self)@, compare, dest),
            final(self).ready_like(*old(self)),
    {
        proof {
            reveal(model::place_comparison);
        }
        self.emit(compare);
        match dest {
            Some(dest) => {
                self.emit(OpCode::Jump { offset: 1 });
                self.emit(OpCode::LoadBool { dest, value: false, skip_next: true });
                self.emit(OpCode::LoadBool { dest, value: true, skip_next: false });
            },
            None => {
                self.emit(OpCode::Jump { offset: 0 });
            },
        }
    }

    /// Consumes an expression and places its value at the destination. Where that is a register,
    /// the register is returned; it is in use, so it must become part of another expression or
    /// be given back.
    #[verifier::spinoff_prover]
    pub(crate) fn expr_discharge(
        &mut self,
        expr: ExprDescriptor<'a>,
        dest: ExprDestination,
    ) -> (result: Result<Option<RegisterIndex>, Halt>)
        requires
            !model::broken(model::discharge(old(self)@, expr@, dest)),
            old(self).ready(),
        ensures
            agrees(model::discharge(old(self)@, expr@, dest), result, final(self)@),
            result is Ok ==> final(self).ready_like(*old(self)),
        decreases weight(expr@), 0nat,
    {
        proof {
            reveal(model::jump_here);
            reveal(model::discharge);
            reveal(model::place_not);
            reveal(model::place_compared);
            reveal(model::place_short_circuit);
        }
        let result: Option<RegisterIndex> = match expr {
            ExprDescriptor::Register { register, is_temporary } => self.place_register(
                register,
                is_temporary,
                dest,
            )?,
            ExprDescriptor::UpValue(source) => self.place_upvalue(source, dest)?,
            ExprDescriptor::Value(value) => self.place_value(value, dest)?,
            ExprDescriptor::Not(operand) => match self.new_destination(dest)? {
                Some(dest) => {
                    let source = self.operand_register(*operand)?;
                    self.emit(OpCode::Not { dest, source });
                    Some(dest)
                },
                None => self.expr_discharge(*operand, ExprDestination::Nowhere)?,
            },
            ExprDescriptor::FunctionCall { func, args } => {
                let source = self.expr_function_call(*func, args, VarCount::make_one())?;
                self.place_result(source, dest)?
            },
            ExprDescriptor::Comparison { left, op, right } => {
                let (left, right) = self.operands(*left, *right)?;
                let dest = self.new_destination(dest)?;
                self.place_comparison(comparison_binop_opcode(op, left, right), dest);
                dest
            },
            ExprDescriptor::ShortCircuitBinOp { left, op, right } => {
                let left_register = self.operand_register(*left)?;
                let dest = self.new_destination(dest)?;
                let is_true = op == ShortCircuitBinOp::And;
                let test = match dest {
                    Some(dest) => if left_register == dest {
                        OpCode::Test { value: left_register, is_true }
                    } else {
                        OpCode::TestSet { dest, value: left_register, is_true }
                    },
                    None => OpCode::Test { value: left_register, is_true },
                };
                self.emit(test);
                let jump: usize = self.jump_placeholder();
                match dest {
                    Some(dest) => {
                        self.place_right(right, ExprDestination::Register(dest))?;
                    },
                    None => {
                        self.place_right(right, ExprDestination::Nowhere)?;
                    },
                }
                self.jump_here(jump)?;
                dest
            },
        };
        match (result, dest) {
            (Some(r), ExprDestination::PushNew) => {
                if r.0 as u16 + 1 != self.stack_top() {
                    return unreached();
                }
            },
            (Some(_), _) => {},
            (None, ExprDestination::Nowhere) => {},
            (None, _) => {
                return unreached();
            },
        }
        Ok(result)
    }

    /// Compiles the right operand of `and` or `or`, and places it.
    #[verifier::spinoff_prover]
    pub(crate) fn place_right(
        &mut self,
        right: &'a Expression,
        dest: ExprDestination,
    ) -> (result: Result<(), Halt>)
        requires
            !model::broken(model::place_right(old(self)@, *right, dest)),
            old(self).ready(),
        ensures
            agrees(model::place_right(old(self)@, *right, dest), result, final(self)@),
            result is Ok ==> final(self).ready_like(*old(self)),
        decreases expression_size(*right), 7nat,
    {
        proof {
            reveal(model::place_right);
        }
        let right = self.expression(right)?;
        self.expr_discharge(right, dest)?;
        Ok(())
    }

    /// Changes an expression so that its value lies in any register, and returns that register.
    /// To do so again gives the same register and changes nothing.
    #[verifier::spinoff_prover]
    pub(crate) fn expr_any_register(&mut self, expr: &mut ExprDescriptor<'a>) -> (result: Result<
        RegisterIndex,
        Halt,
    >)
        requires
            !model::broken(model::any_register(old(self)@, old(expr)@)),
            old(self).ready(),
        ensures
            agrees(model::any_register(old(self)@, old(expr)@), result, final(self)@),
            result is Ok ==> final(self).ready_like(*old(self)),
            result matches Ok(r) ==> {
                &&& final(expr)@ == model::held(old(expr)@, r)
                &&& final(expr)@ == (Desc::Register {
                    register: r,
                    is_temporary: match old(expr)@ {
                        Desc::Register { register: _, is_temporary } => is_temporary,
                        _ => true,
                    },
                })
                &&& old(expr)@ is Register ==> final(self)@ == old(self)@
                &&& model::any_register(final(self)@, final(expr)@) == done(final(self)@, r)
            },
        decreases weight(old(expr)@), 1nat,
    {
        proof {
            reveal(model::any_register);
        }
        if let ExprDescriptor::Register { register, .. } = *expr {
            return Ok(register);
        }
        let mut taken: ExprDescriptor<'a> = ExprDescriptor::Value(Value::Nil);
        std::mem::swap(&mut taken, expr);
        match self.expr_discharge(taken, ExprDestination::AllocateNew)? {
            Some(register) => {
                *expr = ExprDescriptor::Register { register, is_temporary: true };
                Ok(register)
            },
            None => unreached(),
        }
    }

    /// If the expression is a constant value that fits into an 8-bit constant index, returns that
    /// index; otherwise changes the expression so that its value lies in a register and returns
    /// that register.
    #[verifier::spinoff_prover]
    pub(crate) fn expr_any_register_or_constant(
        &mut self,
        expr: &mut ExprDescriptor<'a>,
    ) -> (result: Result<RegisterOrConstant, Halt>)
        requires
            !model::broken(model::any_register_or_constant(old(self)@, old(expr)@)),
            old(self).ready(),
        ensures
            agrees(model::any_register_or_constant(old(self)@, old(expr)@), result, final(self)@),
            result is Ok ==> final(self).ready_like(*old(self)),
            result matches Ok(operand) ==> final(expr)@ == model::held_operand(
                old(expr)@,
                operand,
            ),
            result is Ok ==> is_leaf(final(expr)@),
        decreases weight(old(expr)@), 2nat,
    {
        proof {
            reveal(model::any_register_or_constant);
        }
        if let ExprDescriptor::Value(value) = *expr {
            let constant = self.get_constant(value)?;
            if let Some(c) = cast_u8(constant.0 as usize) {
                return Ok(RegisterOrConstant::Constant(ConstantIndex8(c)));
            }
        }
        Ok(RegisterOrConstant::Register(self.expr_any_register(expr)?))
    }

    /// Brings the value of an expression into any register, to be read by the next instruction.
    #[verifier::spinoff_prover]
    pub(crate) fn operand_register(&mut self, expr: ExprDescriptor<'a>) -> (result: Result<
        RegisterIndex,
        Halt,
    >)
        requires
            !model::broken(model::operand_register(old(self)@, expr@)),
            old(self).ready(),
        ensures
            agrees(model::operand_register(old(self)@, expr@), result, final(self)@),
            result is Ok ==> final(self).ready_like(*old(self)),
        decreases weight(expr@), 2nat,
    {
        proof {
            reveal(model::operand_register);
        }
        let mut expr: ExprDescriptor<'a> = expr;
        let register = self.expr_any_register(&mut expr)?;
        self.release(expr)?;
        Ok(register)
    }

    /// Gives back the register of an expression without operands, if it is temporary.
    #[verifier::spinoff_prover]
    pub(crate) fn release(&mut self, expr: ExprDescriptor<'a>) -> (result: Result<(), Halt>)
        requires
            !model::broken(model::release(old(self)@, expr@)),
            old(self).ready(),
            is_leaf(expr@),
        ensures
            agrees(model::release(old(self)@, expr@), result, final(self)@),
            result is Ok ==> final(self).ready_like(*old(self)),
    {
        proof {
            reveal(model::free_register);
        }
        match expr {
            ExprDescriptor::Register { register, is_temporary } => {
                if is_temporary {
                    self.free_register(register)?;
                }
                Ok(())
            },
            _ => Ok(()),
        }
    }

    /// Makes two expressions operands of the next instruction.
    #[verifier::spinoff_prover]
    pub(crate) fn operands(
        &mut self,
        left: ExprDescriptor<'a>,
        right: ExprDescriptor<'a>,
    ) -> (result: Result<(RegisterOrConstant, RegisterOrConstant), Halt>)
        requires
            !model::broken(model::operands(old(self)@, left@, right@)),
            old(self).ready(),
        ensures
            agrees(model::operands(old(self)@, left@, right@), result, final(self)@),
            result is Ok ==> final(self).ready_like(*old(self)),
        decreases weight(left@) + weight(right@), 3nat,
    {
        proof {
            reveal(model::operands);
        }
        let mut left: ExprDescriptor<'a> = left;
        let mut right: ExprDescriptor<'a> = right;
        let left_operand = self.expr_any_register_or_constant(&mut left)?;
        let right_operand = self.expr_any_register_or_constant(&mut right)?;
        self.release(left)?;
        self.release(right)?;
        Ok((left_operand, right_operand))
    }

    /// Performs a function call and consumes the function and its arguments. The results lie at
    /// the top of the stack, from the returned register on; they are not marked as in use.
    #[verifier::spinoff_prover]
    pub(crate) fn expr_function_call(
        &mut self,
        func: ExprDescriptor<'a>,
        args: Vec<ExprDescriptor<'a>>,
        results: VarCount,
    ) -> (result: Result<RegisterIndex, Halt>)
        requires
            !model::broken(
                model::expr_function_call(old(self)@, func@, descs_view(args@), results),
            ),
            old(self).ready(),
        ensures
            agrees(
                model::expr_function_call(old(self)@, func@, descs_view(args@), results),
                result,
                final(self)@,
            ),
            result is Ok ==> final(self).ready_like(*old(self)),
        decreases weight(func@) + weights(descs_view(args@), 0), 3nat,
    {
        proof {
            reveal(model::expr_function_call);
            reveal(model::push_arguments);
        }
        let mut args: Vec<ExprDescriptor<'a>> = args;
        let ghost given = args@;
        let ghost views = descs_view(args@);
        proof {
            lemma_descs_view(given);
        }
        let top = match self.expr_discharge(func, ExprDestination::PushNew)? {
            Some(r) => r,
            None => {
                return unreached();
            },
        };
        let arg_count: u8 = match cast_u8(args.len()) {
            Some(n) => n,
            None => {
                return Err(Halt::Error(CompilerError::FixedParameters));
            },
        };
        let last: Option<ExprDescriptor<'a>> = args.pop();
        match last {
            None => {
                self.emit(
                    OpCode::Call { func: top, args: VarCount::make_zero(), returns: results },
                );
            },
            Some(last) => {
                let n: usize = args.len();
                let ghost start = self@;
                let mut i: usize = 0;
                #[verifier::loop_isolation(false)]
                while i < n
                    invariant
                        self.ready_like(*old(self)),
                        n == args@.len(),
                        n + 1 == given.len() == views.len(),
                        i <= n,
                        forall|j: int| i <= j < n ==> args@[j] == given[j],
                        forall|j: int| 0 <= j < given.len() ==> #[trigger] views[j] == given[j]@,
                        model::push_arguments(start, views, 0, n as int) == model::push_arguments(
                            self@,
                            views,
                            i as int,
                            n as int,
                        ),
                    decreases n - i,
                {
                    let mut arg: ExprDescriptor<'a> = ExprDescriptor::Value(Value::Nil);
                    std::mem::swap(&mut arg, &mut args[i]);
                    proof {
                        lemma_weights_index(views, 0, i as int);
                        assert(views[i as int] == arg@);
                    }
                    self.expr_discharge(arg, ExprDestination::PushNew)?;
                    i += 1;
                }
                proof {
                    lemma_weights_index(views, 0, n as int);
                    assert(views[n as int] == last@);
                }
                match last {
                    ExprDescriptor::FunctionCall { func: last_func, args: last_args } => {
                        self.expr_function_call(
                            *last_func,
                            last_args,
                            VarCount::make_variable(),
                        )?;
                        self.emit(
                            OpCode::Call {
                                func: top,
                                args: VarCount::make_variable(),
                                returns: results,
                            },
                        );
                    },
                    last => {
                        self.expr_discharge(last, ExprDestination::PushNew)?;
                        match VarCount::make_constant(arg_count) {
                            Some(args) => {
                                self.emit(OpCode::Call { func: top, args, returns: results });
                            },
                            None => {
                                return Err(Halt::Error(CompilerError::FixedParameters));
                            },
                        }
                    },
                }
            },
        }
        self.pop_to(top.0 as u16);
        Ok(top)
    }

    /// Reads a field of a table into a new register.
    #[verifier::spinoff_prover]
    pub(crate) fn get_table(
        &mut self,
        table: &mut ExprDescriptor<'a>,
        key: &mut ExprDescriptor<'a>,
    ) -> (result: Result<RegisterIndex, Halt>)
        requires
            !model::broken(model::get_table(old(self)@, old(table)@, old(key)@)),
            old(self).ready(),
        ensures
            match model::get_table(old(self)@, old(table)@, old(key)@) {
                Ok((st, (dest, t, k))) => result == Ok::<RegisterIndex, Halt>(dest) && final(self)@
                    == st && final(table)@ == t && final(key)@ == k,
                Err((st, stop)) => {
                    &&& result is Err
                    &&& stop == model::reason(result->Err_0)
                    &&& final(self)@ == st
                },
            },
            result is Ok ==> final(self).ready_like(*old(self)),
            result is Ok ==> is_leaf(final(table)@) && is_leaf(final(key)@),
        decreases weight(old(table)@) + weight(old(key)@), 4nat,
    {
        proof {
            reveal(model::get_table);
        }
        let dest = self.allocate()?;
        let op = if let ExprDescriptor::UpValue(table) = *table {
            match self.expr_any_register_or_constant(key)? {
                RegisterOrConstant::Constant(key) => OpCode::GetUpTableC { dest, table, key },
                RegisterOrConstant::Register(key) => OpCode::GetUpTableR { dest, table, key },
            }
        } else {
            let table = self.expr_any_register(table)?;
            match self.expr_any_register_or_constant(key)? {
                RegisterOrConstant::Constant(key) => OpCode::GetTableC { dest, table, key },
                RegisterOrConstant::Register(key) => OpCode::GetTableR { dest, table, key },
            }
        };
        self.emit(op);
        Ok(dest)
    }

    /// Writes a field of a table.
    #[verifier::spinoff_prover]
    pub(crate) fn set_table(
        &mut self,
        table: &mut ExprDescriptor<'a>,
        key: &mut ExprDescriptor<'a>,
        value: &mut ExprDescriptor<'a>,
    ) -> (result: Result<(), Halt>)
        requires
            !model::broken(model::set_table(old(self)@, old(table)@, old(key)@, old(value)@)),
            old(self).ready(),
        ensures
            match model::set_table(old(self)@, old(table)@, old(key)@, old(value)@) {
                Ok((st, (t, k, v))) => {
                    &&& result == Ok::<(), Halt>(())
                    &&& final(self)@ == st
                    &&& final(table)@ == t
                    &&& final(key)@ == k
                    &&& final(value)@ == v
                },
                Err((st, stop)) => {
                    &&& result is Err
                    &&& stop == model::reason(result->Err_0)
                    &&& final(self)@ == st
                },
            },
            result is Ok ==> final(self).ready_like(*old(self)),
            result is Ok ==> is_leaf(final(table)@) && is_leaf(final(key)@) && is_leaf(
                final(value)@,
            ),
        decreases weight(old(table)@) + weight(old(key)@) + weight(old(value)@), 4nat,
    {
        proof {
            reveal(model::set_table);
        }
        let op = if let ExprDescriptor::UpValue(table) = *table {
            let key = self.expr_any_register_or_constant(key)?;
            let value = self.expr_any_register_or_constant(value)?;
            match (key, value) {
                (RegisterOrConstant::Register(key), RegisterOrConstant::Register(value)) => {
                    OpCode::SetUpTableRR { table, key, value }
                },
                (RegisterOrConstant::Register(key), RegisterOrConstant::Constant(value)) => {
                    OpCode::SetUpTableRC { table, key, value }
                },
                (RegisterOrConstant::Constant(key), RegisterOrConstant::Register(value)) => {
                    OpCode::SetUpTableCR { table, key, value }
                },
                (RegisterOrConstant::Constant(key), RegisterOrConstant::Constant(value)) => {
                    OpCode::SetUpTableCC { table, key, value }
                },
            }
        } else {
            let table = self.expr_any_register(table)?;
            let key = self.expr_any_register_or_constant(key)?;
            let value = self.expr_any_register_or_constant(value)?;
            match (key, value) {
                (RegisterOrConstant::Register(key), RegisterOrConstant::Register(value)) => {
                    OpCode::SetTableRR { table, key, value }
                },
                (RegisterOrConstant::Register(key), RegisterOrConstant::Constant(value)) => {
                    OpCode::SetTableRC { table, key, value }
                },
                (RegisterOrConstant::Constant(key), RegisterOrConstant::Register(value)) => {
                    OpCode::SetTableCR { table, key, value }
                },
                (RegisterOrConstant::Constant(key), RegisterOrConstant::Constant(value)) => {
                    OpCode::SetTableCC { table, key, value }
                },
            }
        };
        self.emit(op);
        Ok(())
    }

    /// Reads a field of a table, and gives back what held the table and the key.
    #[verifier::spinoff_prover]
    pub(crate) fn read_field(
        &mut self,
        table: ExprDescriptor<'a>,
        key: ExprDescriptor<'a>,
    ) -> (result: Result<ExprDescriptor<'a>, Halt>)
        requires
            !model::broken(model::read_field(old(self)@, table@, key@)),
            old(self).ready(),
        ensures
            agrees_view(model::read_field(old(self)@, table@, key@), result, final(self)@),
            result is Ok ==> final(self).ready_like(*old(self)),
            result matches Ok(d) ==> weight(d@) == 1,
        decreases weight(table@) + weight(key@), 5nat,
    {
        proof {
            reveal(model::read_field);
        }
        let mut table: ExprDescriptor<'a> = table;
        let mut key: ExprDescriptor<'a> = key;
        let register = self.get_table(&mut table, &mut key)?;
        self.release(table)?;
        self.release(key)?;
        Ok(ExprDescriptor::Register { register, is_temporary: true })
    }

    /// Writes a field of a table, and gives back what held the table, the key and the value.
    #[verifier::spinoff_prover]
    pub(crate) fn write_field(
        &mut self,
        table: ExprDescriptor<'a>,
        key: ExprDescriptor<'a>,
        value: ExprDescriptor<'a>,
    ) -> (result: Result<(), Halt>)
        requires
            !model::broken(model::write_field(old(self)@, table@, key@, value@)),
            old(self).ready(),
        ensures
            agrees(model::write_field(old(self)@, table@, key@, value@), result, final(self)@),
            result is Ok ==> final(self).ready_like(*old(self)),
        decreases weight(table@) + weight(key@) + weight(value@), 5nat,
    {
        proof {
            reveal(model::write_field);
        }
        let mut table: ExprDescriptor<'a> = table;
        let mut key: ExprDescriptor<'a> = key;
        let mut value: ExprDescriptor<'a> = value;
        self.set_table(&mut table, &mut key, &mut value)?;
        self.release(table)?;
        self.release(key)?;
        self.release(value)?;
        Ok(())
    }

    /// Compiles an expression, or stops at a part that the compiler does not know.
    #[verifier::spinoff_prover]
    pub(crate) fn expression(&mut self, expression: &'a Expression) -> (result: Result<
        ExprDescriptor<'a>,
        Halt,
    >)
        requires
            !model::broken(model::expression(old(self)@, *expression)),
            old(self).ready(),
        ensures
            agrees_view(model::expression(old(self)@, *expression), result, final(self)@),
            result is Ok ==> final(self).ready_like(*old(self)),
            result matches Ok(d) ==> weight(d@) <= expression_size(*expression),
        decreases expression_size(*expression), 6nat,
    {
        proof {
            reveal(model::expression);
            reveal(model::expression_rest);
            reveal(model::binary_operator);
        }
        let mut expr: ExprDescriptor<'a> = self.head_expression(&expression.head)?;
        let mut i: usize = 0;
        #[verifier::loop_isolation(false)]
        while i < expression.tail.len()
            invariant
                self.ready_like(*old(self)),
                i <= expression.tail@.len(),
                weight(expr@) + tail_size(expression.tail@, i as int) < expression_size(
                    *expression,
                ),
                model::expression(old(self)@, *expression) == model::expression_rest(
                    self@,
                    expr@,
                    expression.tail@,
                    i as int,
                ),
            decreases expression.tail@.len() - i,
        {
            let binop: BinaryOperator = expression.tail[i].0;
            if let BinaryOperator::Concat = binop {
                return Err(Halt::Unsupported(Feature::Concat));
            }
            expr = self.binary_operator(expr, binop, &expression.tail[i].1)?;
            i += 1;
        }
        Ok(expr)
    }

    /// Compiles the head of an expression, or stops where the compiler does not know its kind.
    #[verifier::spinoff_prover]
    pub(crate) fn head_expression(
        &mut self,
        head_expression: &'a HeadExpression,
    ) -> (result: Result<ExprDescriptor<'a>, Halt>)
        requires
            !model::broken(model::head_expression(old(self)@, *head_expression)),
            old(self).ready(),
        ensures
            agrees_view(model::head_expression(old(self)@, *head_expression), result, final(self)@),
            result is Ok ==> final(self).ready_like(*old(self)),
            result matches Ok(d) ==> weight(d@) <= head_size(*head_expression),
        decreases head_size(*head_expression), 6nat,
    {
        proof {
            reveal(model::head_expression);
            reveal(model::simple_expression);
            reveal(model::table_constructor);
        }
        match head_expression {
            HeadExpression::Simple(simple_expression) => match simple_expression {
                SimpleExpression::VarArgs => Err(Halt::Unsupported(Feature::VarArgs)),
                SimpleExpression::TableConstructor(table) if table.fields.len() != 0 => Err(
                    Halt::Unsupported(Feature::TableFields),
                ),
                _ => self.simple_expression(simple_expression),
            },
            HeadExpression::UnaryOperator(unop, expr) => {
                let expr = self.expression(expr)?;
                self.unary_operator(*unop, expr)
            },
        }
    }

    /// Compiles an expression without operators of a kind that the compiler knows.
    #[verifier::spinoff_prover]
    pub(crate) fn simple_expression(
        &mut self,
        simple_expression: &'a SimpleExpression,
    ) -> (result: Result<ExprDescriptor<'a>, Halt>)
        requires
            !(simple_expression is VarArgs),
            simple_expression matches SimpleExpression::TableConstructor(t) ==> t.fields@.len()
                == 0,
            !model::broken(model::simple_expression(old(self)@, *simple_expression)),
            old(self).ready(),
        ensures
            agrees_view(
                model::simple_expression(old(self)@, *simple_expression),
                result,
                final(self)@,
            ),
            result is Ok ==> final(self).ready_like(*old(self)),
            result matches Ok(d) ==> weight(d@) <= simple_size(*simple_expression),
        decreases simple_size(*simple_expression), 6nat,
    {
        proof {
            reveal(model::simple_expression);
        }
        match simple_expression {
            SimpleExpression::Float(f) => Ok(ExprDescriptor::Value(Value::Number(*f))),
            SimpleExpression::Integer(i) => Ok(ExprDescriptor::Value(Value::Integer(*i))),
            SimpleExpression::String(s) => Ok(ExprDescriptor::Value(Value::String(&**s))),
            SimpleExpression::Nil => Ok(ExprDescriptor::Value(Value::Nil)),
            SimpleExpression::True => Ok(ExprDescriptor::Value(Value::Boolean(true))),
            SimpleExpression::False => Ok(ExprDescriptor::Value(Value::Boolean(false))),
            SimpleExpression::VarArgs => unreached(),
            SimpleExpression::TableConstructor(table) => self.table_constructor(table),
            SimpleExpression::Function(function) => self.function_expression(function),
            SimpleExpression::Suffixed(suffixed) => self.suffixed_expression(suffixed),
        }
    }

    /// Creates an empty table in a new register.
    #[verifier::spinoff_prover]
    pub(crate) fn table_constructor(
        &mut self,
        table_constructor: &'a TableConstructor,
    ) -> (result: Result<ExprDescriptor<'a>, Halt>)
        requires
            table_constructor.fields@.len() == 0,
            !model::broken(model::table_constructor(old(self)@, *table_constructor)),
            old(self).ready(),
        ensures
            agrees_view(
                model::table_constructor(old(self)@, *table_constructor),
                result,
                final(self)@,
            ),
            result is Ok ==> final(self).ready_like(*old(self)),
            result matches Ok(d) ==> weight(d@) == 1,
    {
        proof {
            reveal(model::table_constructor);
        }
        let dest = self.allocate()?;
        self.emit(OpCode::NewTable { dest });
        Ok(ExprDescriptor::Register { register: dest, is_temporary: true })
    }

    /// Creates a closure of an inner function in a new register.
    #[verifier::spinoff_prover]
    pub(crate) fn closure(&mut self, proto: PrototypeIndex) -> (result: Result<RegisterIndex, Halt>)
        requires
            !model::broken(model::closure(old(self)@, proto)),
            old(self).ready(),
        ensures
            agrees(model::closure(old(self)@, proto), result, final(self)@),
            result is Ok ==> final(self).ready_like(*old(self)),
    {
        proof {
            reveal(model::closure);
        }
        let dest = self.allocate()?;
        self.emit(OpCode::Closure { proto, dest });
        Ok(dest)
    }

    #[verifier::spinoff_prover]
    pub(crate) fn function_expression(
        &mut self,
        function: &'a FunctionDefinition,
    ) -> (result: Result<ExprDescriptor<'a>, Halt>)
        requires
            !model::broken(model::function_expression(old(self)@, *function)),
            old(self).ready(),
        ensures
            agrees_view(model::function_expression(old(self)@, *function), result, final(self)@),
            result is Ok ==> final(self).ready_like(*old(self)),
            result matches Ok(d) ==> weight(d@) == 1,
        decreases definition_size(*function), 7nat,
    {
        proof {
            reveal(model::function_expression);
        }
        let proto = self.new_prototype(function)?;
        let dest = self.closure(proto)?;
        Ok(ExprDescriptor::Register { register: dest, is_temporary: true })
    }

    #[verifier::spinoff_prover]
    pub(crate) fn suffixed_expression(
        &mut self,
        suffixed_expression: &'a SuffixedExpression,
    ) -> (result: Result<ExprDescriptor<'a>, Halt>)
        requires
            !model::broken(model::suffixed_expression(old(self)@, *suffixed_expression)),
            old(self).ready(),
        ensures
            agrees_view(
                model::suffixed_expression(old(self)@, *suffixed_expression),
                result,
                final(self)@,
            ),
            result is Ok ==> final(self).ready_like(*old(self)),
            result matches Ok(d) ==> weight(d@) <= suffixed_size(*suffixed_expression),
        decreases suffixed_size(*suffixed_expression), 6nat,
    {
        proof {
            reveal(model::suffixed_expression);
            reveal(model::suffixed_rest);
        }
        let mut expr: ExprDescriptor<'a> = self.primary_expression(&suffixed_expression.primary)?;
        let ghost suffixes = suffixed_expression.suffixes@;
        let mut i: usize = 0;
        #[verifier::loop_isolation(false)]
        while i < suffixed_expression.suffixes.len()
            invariant
                self.ready_like(*old(self)),
                suffixes == suffixed_expression.suffixes@,
                i <= suffixes.len(),
                weight(expr@) + suffixes_size(suffixes, i as int) < suffixed_size(
                    *suffixed_expression,
                ),
                model::suffixed_expression(old(self)@, *suffixed_expression)
                    == model::suffixed_rest(self@, expr@, suffixes, i as int),
            decreases suffixes.len() - i,
        {
            expr = self.suffix(expr, &suffixed_expression.suffixes[i])?;
            i += 1;
        }
        Ok(expr)
    }

    /// Applies a suffix.
    #[verifier::spinoff_prover]
    pub(crate) fn suffix(
        &mut self,
        expr: ExprDescriptor<'a>,
        part: &'a SuffixPart,
    ) -> (result: Result<ExprDescriptor<'a>, Halt>)
        requires
            !model::broken(model::suffix(old(self)@, expr@, *part)),
            old(self).ready(),
        ensures
            agrees_view(model::suffix(old(self)@, expr@, *part), result, final(self)@),
            result is Ok ==> final(self).ready_like(*old(self)),
            result matches Ok(d) ==> weight(d@) <= weight(expr@) + suffix_size(*part),
        decreases weight(expr@) + suffix_size(*part), 5nat,
    {
        proof {
            reveal(model::suffix);
        }
        match part {
            SuffixPart::Field(field) => {
                let key = self.field_key(field)?;
                self.read_field(expr, key)
            },
            SuffixPart::Call(CallSuffix::Function(args)) => {
                assert(call_size(CallSuffix::Function(*args)) >= 8);
                let args = self.expressions(args)?;
                Ok(ExprDescriptor::FunctionCall { func: Box::new(expr), args })
            },
            SuffixPart::Call(CallSuffix::Method(_, _)) => Err(
                Halt::Unsupported(Feature::MethodCallExpression),
            ),
        }
    }

    /// The key of a field.
    #[verifier::spinoff_prover]
    pub(crate) fn field_key(&mut self, field: &'a FieldSuffix) -> (result: Result<
        ExprDescriptor<'a>,
        Halt,
    >)
        requires
            !model::broken(model::field_key(old(self)@, *field)),
            old(self).ready(),
        ensures
            agrees_view(model::field_key(old(self)@, *field), result, final(self)@),
            result is Ok ==> final(self).ready_like(*old(self)),
            result matches Ok(d) ==> weight(d@) <= field_size(*field),
        decreases field_size(*field), 6nat,
    {
        proof {
            reveal(model::field_key);
        }
        match field {
            FieldSuffix::Named(name) => Ok(ExprDescriptor::Value(Value::String(&**name))),
            FieldSuffix::Indexed(idx) => self.expression(idx),
        }
    }

    /// Compiles a list of expressions.
    #[verifier::spinoff_prover]
    pub(crate) fn expressions(&mut self, expressions: &'a Vec<Expression>) -> (result: Result<
        Vec<ExprDescriptor<'a>>,
        Halt,
    >)
        requires
            !model::broken(model::expressions(old(self)@, expressions@, 0, Seq::empty())),
            old(self).ready(),
        ensures
            agrees_list(
                model::expressions(old(self)@, expressions@, 0, Seq::empty()),
                result,
                final(self)@,
            ),
            result is Ok ==> final(self).ready_like(*old(self)),
            result matches Ok(ds) ==> weights(descs_view(ds@), 0) <= expressions_size(
                expressions@,
                0,
            ),
        decreases expressions_size(expressions@, 0), 7nat,
    {
        proof {
            reveal(model::expressions);
        }
        let mut done: Vec<ExprDescriptor<'a>> = Vec::new();
        assert(descs_view(done@) =~= Seq::empty());
        let mut i: usize = 0;
        #[verifier::loop_isolation(false)]
        while i < expressions.len()
            invariant
                self.ready_like(*old(self)),
                i <= expressions@.len(),
                weights(descs_view(done@), 0) + expressions_size(expressions@, i as int)
                    <= expressions_size(expressions@, 0),
                model::expressions(old(self)@, expressions@, 0, Seq::empty())
                    == model::expressions(self@, expressions@, i as int, descs_view(done@)),
            decreases expressions@.len() - i,
        {
            let d = self.expression(&expressions[i])?;
            let ghost before = done@;
            done.push(d);
            proof {
                assert(done@.drop_last() =~= before);
                lemma_weights_push(descs_view(before), d@, 0);
            }
            i += 1;
        }
        Ok(done)
    }

    #[verifier::spinoff_prover]
    pub(crate) fn primary_expression(
        &mut self,
        primary_expression: &'a PrimaryExpression,
    ) -> (result: Result<ExprDescriptor<'a>, Halt>)
        requires
            !model::broken(model::primary_expression(old(self)@, *primary_expression)),
            old(self).ready(),
        ensures
            agrees_view(
                model::primary_expression(old(self)@, *primary_expression),
                result,
                final(self)@,
            ),
            result is Ok ==> final(self).ready_like(*old(self)),
            result matches Ok(d) ==> weight(d@) <= primary_size(*primary_expression),
        decreases primary_size(*primary_expression), 6nat,
    {
        proof {
            reveal(model::primary_expression);
        }
        match primary_expression {
            PrimaryExpression::Name(name) => match self.find_variable(&**name)? {
                VariableDescriptor::Local(register) => Ok(
                    ExprDescriptor::Register { register, is_temporary: false },
                ),
                VariableDescriptor::UpValue(upvalue) => Ok(ExprDescriptor::UpValue(upvalue)),
                VariableDescriptor::Global(name) => {
                    let env = self.get_environment()?;
                    self.read_field(env, ExprDescriptor::Value(Value::String(name)))
                },
            },
            PrimaryExpression::GroupedExpression(expr) => self.expression(expr),
        }
    }

    #[verifier::spinoff_prover]
    pub(crate) fn unary_operator(
        &mut self,
        unop: UnaryOperator,
        expr: ExprDescriptor<'a>,
    ) -> (result: Result<ExprDescriptor<'a>, Halt>)
        requires
            !model::broken(model::unary_operator(old(self)@, unop, expr@)),
            old(self).ready(),
        ensures
            agrees_view(model::unary_operator(old(self)@, unop, expr@), result, final(self)@),
            result is Ok ==> final(self).ready_like(*old(self)),
            result matches Ok(d) ==> weight(d@) <= 1 + weight(expr@),
        decreases weight(expr@), 4nat,
    {
        proof {
            reveal(model::unary_operator);
        }
        if let ExprDescriptor::Value(v) = &expr {
            if let Some(v) = unop_const_fold(unop, *v) {
                return Ok(ExprDescriptor::Value(v));
            }
        }
        if unop == UnaryOperator::Not {
            return Ok(ExprDescriptor::Not(Box::new(expr)));
        }
        let source = self.operand_register(expr)?;
        let dest = self.allocate()?;
        self.emit(unop_opcode(unop, dest, source));
        Ok(ExprDescriptor::Register { register: dest, is_temporary: true })
    }

    /// The instruction of a simple operator, with the result in a new register.
    #[verifier::spinoff_prover]
    pub(crate) fn simple_operation(
        &mut self,
        left: ExprDescriptor<'a>,
        op: SimpleBinOp,
        right: ExprDescriptor<'a>,
    ) -> (result: Result<ExprDescriptor<'a>, Halt>)
        requires
            !model::broken(model::simple_operation(old(self)@, left@, op, right@)),
            old(self).ready(),
        ensures
            agrees_view(
                model::simple_operation(old(self)@, left@, op, right@),
                result,
                final(self)@,
            ),
            result is Ok ==> final(self).ready_like(*old(self)),
            result matches Ok(d) ==> weight(d@) == 1,
        decreases weight(left@) + weight(right@), 4nat,
    {
        proof {
            reveal(model::simple_operation);
        }
        let (left, right) = self.operands(left, right)?;
        let dest = self.allocate()?;
        self.emit(simple_binop_opcode(op, dest, left, right));
        Ok(ExprDescriptor::Register { register: dest, is_temporary: true })
    }

    /// Applies a binary operator that the compiler knows.
    #[verifier::spinoff_prover]
    pub(crate) fn binary_operator(
        &mut self,
        left: ExprDescriptor<'a>,
        binop: BinaryOperator,
        right: &'a Expression,
    ) -> (result: Result<ExprDescriptor<'a>, Halt>)
        requires
            binop != BinaryOperator::Concat,
            !model::broken(model::binary_operator(old(self)@, left@, binop, *right)),
            old(self).ready(),
        ensures
            agrees_view(
                model::binary_operator(old(self)@, left@, binop, *right),
                result,
                final(self)@,
            ),
            result is Ok ==> final(self).ready_like(*old(self)),
            result matches Ok(d) ==> weight(d@) <= 1 + weight(left@) + expression_size(*right),
        decreases weight(left@) + expression_size(*right), 5nat,
    {
        proof {
            reveal(model::binary_operator);
        }
        match categorize_binop(binop) {
            BinOpCategory::Simple(op) => {
                let right = self.expression(right)?;
                if let (ExprDescriptor::Value(a), ExprDescriptor::Value(b)) = (&left, &right) {
                    if let Some(v) = simple_binop_const_fold(op, *a, *b) {
                        return Ok(ExprDescriptor::Value(v));
                    }
                }
                self.simple_operation(left, op, right)
            },
            BinOpCategory::Comparison(op) => {
                let right = self.expression(right)?;
                if let (ExprDescriptor::Value(a), ExprDescriptor::Value(b)) = (&left, &right) {
                    if let Some(v) = comparison_binop_const_fold(op, *a, *b) {
                        return Ok(ExprDescriptor::Value(v));
                    }
                }
                Ok(
                    ExprDescriptor::Comparison {
                        left: Box::new(left),
                        op,
                        right: Box::new(right),
                    },
                )
            },
            BinOpCategory::ShortCircuit(op) => Ok(
                ExprDescriptor::ShortCircuitBinOp { left: Box::new(left), op, right },
            ),
            BinOpCategory::Concat => unreached(),
        }
    }
}

} // verus!
