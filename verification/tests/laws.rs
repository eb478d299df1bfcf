//! What holds of every compiled chunk, on examples.

use lua_compiler::compiler::{compile_chunk, try_compile_chunk};
use lua_compiler::compiler::operators::{RegisterOrConstant, SimpleBinOp};
use lua_compiler::function::{FunctionProto, UpValueDescriptor};
use lua_compiler::opcode::{
    ConstantIndex16, ConstantIndex8, OpCode, RegisterIndex, UpValueIndex, VarCount,
};
use lua_compiler::parser::{
    AssignmentStatement, AssignmentTarget, BinaryOperator, Block, CallSuffix, Chunk, Expression,
    FieldSuffix, FunctionCallStatement, FunctionDefinition, FunctionName, FunctionStatement,
    HeadExpression, IfStatement, LocalStatement, PrimaryExpression, ReturnStatement,
    SimpleExpression, Statement, SuffixPart, SuffixedExpression, UnaryOperator,
};
use lua_compiler::value::Value;

fn bytes(s: &str) -> Box<[u8]> {
    s.as_bytes().into()
}

fn simple(s: SimpleExpression) -> Expression {
    Expression { head: Box::new(HeadExpression::Simple(s)), tail: Vec::new() }
}

fn integer(i: i64) -> Expression {
    simple(SimpleExpression::Integer(i))
}

fn nil() -> Expression {
    simple(SimpleExpression::Nil)
}

fn suffixed(name: &str, suffixes: Vec<SuffixPart>) -> SuffixedExpression {
    SuffixedExpression { primary: PrimaryExpression::Name(bytes(name)), suffixes }
}

fn var(name: &str) -> Expression {
    simple(SimpleExpression::Suffixed(suffixed(name, Vec::new())))
}

fn call(name: &str, args: Vec<Expression>) -> Expression {
    simple(SimpleExpression::Suffixed(suffixed(
        name,
        vec![SuffixPart::Call(CallSuffix::Function(args))],
    )))
}

fn field(name: &str, key: &str) -> Expression {
    simple(SimpleExpression::Suffixed(suffixed(
        name,
        vec![SuffixPart::Field(FieldSuffix::Named(bytes(key)))],
    )))
}

fn binary(left: Expression, op: BinaryOperator, right: Expression) -> Expression {
    let mut e = left;
    e.tail.push((op, right));
    e
}

fn unary(op: UnaryOperator, e: Expression) -> Expression {
    Expression { head: Box::new(HeadExpression::UnaryOperator(op, e)), tail: Vec::new() }
}

fn local(names: &[&str], values: Vec<Expression>) -> Statement {
    Statement::LocalStatement(LocalStatement {
        names: names.iter().map(|n| bytes(n)).collect(),
        values,
    })
}

fn assign(name: &str, value: Expression) -> Statement {
    Statement::Assignment(AssignmentStatement {
        targets: vec![AssignmentTarget::Name(bytes(name))],
        values: vec![value],
    })
}

fn call_statement(name: &str, args: Vec<Expression>) -> Statement {
    Statement::FunctionCall(FunctionCallStatement {
        head: suffixed(name, Vec::new()),
        call: CallSuffix::Function(args),
    })
}

fn block(statements: Vec<Statement>) -> Block {
    Block { statements, return_statement: None }
}

fn returning(statements: Vec<Statement>, returns: Vec<Expression>) -> Block {
    Block { statements, return_statement: Some(ReturnStatement { returns }) }
}

fn chunk(statements: Vec<Statement>) -> Chunk {
    Chunk { block: block(statements) }
}

fn function(parameters: &[&str], body: Block) -> FunctionDefinition {
    FunctionDefinition {
        parameters: parameters.iter().map(|n| bytes(n)).collect(),
        has_varargs: false,
        body,
    }
}

fn function_name(name: &str) -> FunctionName {
    FunctionName { name: bytes(name), fields: Vec::new(), method: None }
}

fn local_function(name: &str, definition: FunctionDefinition) -> Statement {
    Statement::LocalFunction(FunctionStatement { name: function_name(name), definition })
}

fn r(i: u8) -> RegisterIndex {
    RegisterIndex(i)
}

fn end() -> OpCode {
    OpCode::Return { start: r(0), count: VarCount::make_zero() }
}

fn count(n: u8) -> VarCount {
    VarCount::make_constant(n).unwrap()
}

/// Panics where an instruction refers to something that is not there.
fn check_well_formed(p: &FunctionProto<'_>) {
    let last = p.opcodes.len() as i64 - 1;
    assert!(matches!(p.opcodes.last(), Some(OpCode::Return { .. })));
    assert!(p.fixed_params as u16 <= p.stack_size);
    let reg = |x: RegisterIndex| assert!((x.0 as u16) < p.stack_size);
    let con = |x: ConstantIndex8| assert!((x.0 as usize) < p.constants.len());
    let upv = |x: UpValueIndex| assert!((x.0 as usize) < p.upvalues.len());
    let operand = |x: RegisterOrConstant| match x {
        RegisterOrConstant::Register(x) => reg(x),
        RegisterOrConstant::Constant(x) => con(x),
    };
    for (i, op) in p.opcodes.iter().enumerate() {
        let goes_to = |target: i64| assert!(0 <= target && target <= last);
        let here = i as i64;
        match *op {
            OpCode::Move { dest, source }
            | OpCode::Not { dest, source }
            | OpCode::Minus { dest, source }
            | OpCode::BitNot { dest, source }
            | OpCode::Length { dest, source } => {
                reg(dest);
                reg(source);
            }
            OpCode::LoadConstant { dest, constant } => {
                reg(dest);
                assert!((constant.0 as usize) < p.constants.len());
            }
            OpCode::LoadBool { dest, skip_next, .. } => {
                reg(dest);
                goes_to(here + if skip_next { 2 } else { 1 });
            }
            OpCode::LoadNil { dest, count } => {
                assert!(count > 0);
                assert!(dest.0 as u16 + count as u16 <= p.stack_size);
            }
            OpCode::NewTable { dest } => reg(dest),
            OpCode::GetTableR { dest, table, key } => {
                reg(dest);
                reg(table);
                reg(key);
            }
            OpCode::GetTableC { dest, table, key } => {
                reg(dest);
                reg(table);
                con(key);
            }
            OpCode::SetTableRR { table, key, value } => {
                reg(table);
                reg(key);
                reg(value);
            }
            OpCode::SetTableRC { table, key, value } => {
                reg(table);
                reg(key);
                con(value);
            }
            OpCode::SetTableCR { table, key, value } => {
                reg(table);
                con(key);
                reg(value);
            }
            OpCode::SetTableCC { table, key, value } => {
                reg(table);
                con(key);
                con(value);
            }
            OpCode::GetUpTableR { dest, table, key } => {
                reg(dest);
                upv(table);
                reg(key);
            }
            OpCode::GetUpTableC { dest, table, key } => {
                reg(dest);
                upv(table);
                con(key);
            }
            OpCode::SetUpTableRR { table, key, value } => {
                upv(table);
                reg(key);
                reg(value);
            }
            OpCode::SetUpTableRC { table, key, value } => {
                upv(table);
                reg(key);
                con(value);
            }
            OpCode::SetUpTableCR { table, key, value } => {
                upv(table);
                con(key);
                reg(value);
            }
            OpCode::SetUpTableCC { table, key, value } => {
                upv(table);
                con(key);
                con(value);
            }
            OpCode::Call { func, args, .. } => {
                reg(func);
                if let Some(n) = args.to_constant() {
                    assert!(func.0 as u16 + (n as u16) < p.stack_size);
                }
            }
            OpCode::Return { start, count } => {
                if count != VarCount::make_zero() {
                    reg(start);
                }
            }
            OpCode::Closure { proto, dest } => {
                reg(dest);
                assert!((proto.0 as usize) < p.prototypes.len());
            }
            OpCode::Jump { offset } => {
                assert!(offset >= 0);
                goes_to(here + 1 + offset as i64);
            }
            OpCode::Test { value, .. } => {
                reg(value);
                goes_to(here + 2);
            }
            OpCode::TestSet { dest, value, .. } => {
                reg(dest);
                reg(value);
                goes_to(here + 2);
            }
            OpCode::GetUpValue { source, dest } => {
                upv(source);
                reg(dest);
            }
            OpCode::SetUpValue { source, dest } => {
                reg(source);
                upv(dest);
            }
            OpCode::Simple { dest, left, right, .. } => {
                reg(dest);
                operand(left);
                operand(right);
            }
            OpCode::Compare { left, right, .. } => {
                operand(left);
                operand(right);
                goes_to(here + 2);
            }
        }
    }
    for i in 0..p.constants.len() {
        for j in 0..i {
            assert!(!p.constants[i].same_constant(&p.constants[j]));
        }
    }
    for inner in &p.prototypes {
        for u in &inner.upvalues {
            match *u {
                UpValueDescriptor::Environment => panic!("only the chunk has the environment"),
                UpValueDescriptor::ParentLocal(x) => reg(x),
                UpValueDescriptor::Outer(x) => upv(x),
            }
        }
        check_well_formed(inner);
    }
}

fn large_chunk() -> Chunk {
    let inner = function(
        &["p"],
        returning(
            vec![
                assign("a", binary(var("p"), BinaryOperator::And, var("g"))),
                Statement::If(IfStatement {
                    if_part: (
                        binary(var("a"), BinaryOperator::LessThan, field("t", "x")),
                        block(vec![local(&["a", "b"], vec![call("p", vec![var("a")])])]),
                    ),
                    else_if_parts: vec![(
                        unary(UnaryOperator::Not, call("g", vec![])),
                        returning(vec![], vec![unary(UnaryOperator::Minus, var("p"))]),
                    )],
                    else_part: Some(block(vec![call_statement("g", vec![nil(), var("t")])])),
                }),
            ],
            vec![call("g", vec![call("g", vec![integer(1)]), call("p", vec![])])],
        ),
    );
    chunk(vec![
        local(&["a", "t"], vec![binary(var("x"), BinaryOperator::Or, integer(1))]),
        local_function("f", inner),
        assign("y", binary(call("f", vec![var("a")]), BinaryOperator::Equal, nil())),
        Statement::Do(block(vec![local(&["z"], vec![var("f")])])),
        assign("a", unary(UnaryOperator::Not, field("t", "k"))),
    ])
}

#[test]
fn compiled_chunks_are_well_formed() {
    let c = large_chunk();
    let p = compile_chunk(&c).unwrap();
    check_well_formed(&p);
    assert_eq!(p.prototypes.len(), 1);
}

#[test]
fn a_chunk_has_at_most_the_environment() {
    let c = large_chunk();
    let p = compile_chunk(&c).unwrap();
    assert_eq!(p.fixed_params, 0);
    assert!(!p.has_varargs);
    assert_eq!(p.upvalues, vec![UpValueDescriptor::Environment]);
}

#[test]
fn supported_chunks_are_compiled() {
    assert!(try_compile_chunk(&large_chunk()).is_ok());
    assert!(try_compile_chunk(&chunk(vec![])).is_ok());
}

#[test]
fn a_block_gives_its_registers_back() {
    let inside = Statement::Do(block(vec![local(&["b", "c"], vec![integer(1), integer(2)])]));
    let c = chunk(vec![local(&["a"], vec![]), inside, local(&["d"], vec![integer(3)])]);
    let p = compile_chunk(&c).unwrap();
    assert_eq!(
        p.opcodes[3],
        OpCode::LoadConstant { dest: r(1), constant: ConstantIndex16(2) }
    );
    assert_eq!(p.stack_size, 3);
}

#[test]
fn names_mean_the_same_again_behind_a_block() {
    let inside = Statement::Do(block(vec![
        local(&["a"], vec![integer(1)]),
        assign("a", integer(2)),
    ]));
    let c = chunk(vec![local(&["a"], vec![]), inside, assign("a", integer(3))]);
    let p = compile_chunk(&c).unwrap();
    assert_eq!(
        p.opcodes,
        vec![
            OpCode::LoadNil { dest: r(0), count: 1 },
            OpCode::LoadConstant { dest: r(1), constant: ConstantIndex16(0) },
            OpCode::LoadConstant { dest: r(1), constant: ConstantIndex16(1) },
            OpCode::LoadConstant { dest: r(0), constant: ConstantIndex16(2) },
            end(),
        ]
    );
}

#[test]
fn the_newest_local_hides_older_ones() {
    let c = Chunk {
        block: returning(
            vec![
                local(&["a"], vec![integer(1)]),
                local(&["a"], vec![var("a")]),
            ],
            vec![var("a")],
        ),
    };
    let p = compile_chunk(&c).unwrap();
    assert_eq!(p.opcodes[1], OpCode::Move { dest: r(1), source: r(0) });
    assert_eq!(p.opcodes[2], OpCode::Move { dest: r(2), source: r(1) });
}

#[test]
fn a_local_function_does_not_see_itself() {
    let c = chunk(vec![local_function(
        "f",
        function(&[], returning(vec![], vec![var("f")])),
    )]);
    let p = compile_chunk(&c).unwrap();
    assert_eq!(p.prototypes[0].upvalues, vec![UpValueDescriptor::Outer(UpValueIndex(0))]);
    assert_eq!(
        p.prototypes[0].opcodes[0],
        OpCode::GetUpTableC { dest: r(0), table: UpValueIndex(0), key: ConstantIndex8(0) }
    );
}

#[test]
fn upvalues_lead_to_the_innermost_variable() {
    let inner = function(&[], returning(vec![], vec![var("x"), var("y")]));
    let middle = function(
        &["y"],
        block(vec![local(&["w"], vec![]), local_function("g", inner)]),
    );
    let c = chunk(vec![
        local(&["y", "x"], vec![]),
        local_function("f", middle),
    ]);
    let p = compile_chunk(&c).unwrap();
    let middle = &p.prototypes[0];
    let inner = &middle.prototypes[0];
    assert_eq!(middle.upvalues, vec![UpValueDescriptor::ParentLocal(r(1))]);
    assert_eq!(
        inner.upvalues,
        vec![
            UpValueDescriptor::Outer(UpValueIndex(0)),
            UpValueDescriptor::ParentLocal(r(0)),
        ]
    );
}

#[test]
fn an_upvalue_is_taken_once() {
    let inner = function(
        &[],
        returning(vec![], vec![var("x"), var("x"), var("x")]),
    );
    let c = chunk(vec![local(&["x"], vec![]), local_function("f", inner)]);
    let p = compile_chunk(&c).unwrap();
    assert_eq!(p.prototypes[0].upvalues.len(), 1);
}

#[test]
fn constants_are_kept_once() {
    let float = |x: f64| simple(SimpleExpression::Float(x.to_bits()));
    let string = |s: &str| simple(SimpleExpression::String(bytes(s)));
    let c = chunk(vec![
        local(&["a"], vec![]),
        assign("a", integer(1)),
        assign("a", float(1.0)),
        assign("a", string("1")),
        assign("a", integer(1)),
        assign("a", float(1.0)),
        assign("a", string("1")),
    ]);
    let p = compile_chunk(&c).unwrap();
    assert_eq!(
        p.constants,
        vec![Value::Integer(1), Value::Number(1.0f64.to_bits()), Value::String(b"1")]
    );
    assert_eq!(p.opcodes[1], p.opcodes[4]);
    assert_eq!(p.opcodes[2], p.opcodes[5]);
    assert_eq!(p.opcodes[3], p.opcodes[6]);
}

#[test]
fn the_environment_is_found_in_every_function() {
    let deep = function(&[], block(vec![assign("x", integer(1))]));
    let outer = function(&[], block(vec![local_function("g", deep)]));
    let c = chunk(vec![local_function("f", outer)]);
    let p = compile_chunk(&c).unwrap();
    assert_eq!(p.upvalues, vec![UpValueDescriptor::Environment]);
    assert_eq!(p.prototypes[0].upvalues, vec![UpValueDescriptor::Outer(UpValueIndex(0))]);
    assert_eq!(
        p.prototypes[0].prototypes[0].upvalues,
        vec![UpValueDescriptor::Outer(UpValueIndex(0))]
    );
}

#[test]
fn a_call_leaves_its_results_where_the_function_was() {
    let c = chunk(vec![
        local(&["f"], vec![]),
        local(
            &["a"],
            vec![binary(call("f", vec![]), BinaryOperator::Add, call("f", vec![integer(1)]))],
        ),
    ]);
    let p = compile_chunk(&c).unwrap();
    check_well_formed(&p);
    assert_eq!(p.opcodes.len(), 8);
    assert_eq!(
        p.opcodes[2],
        OpCode::Call { func: r(1), args: count(0), returns: count(1) }
    );
    assert_eq!(
        p.opcodes[5],
        OpCode::Call { func: r(2), args: count(1), returns: count(1) }
    );
    assert_eq!(
        p.opcodes[6],
        OpCode::Simple {
            op: SimpleBinOp::Add,
            dest: r(1),
            left: RegisterOrConstant::Register(r(1)),
            right: RegisterOrConstant::Register(r(2)),
        }
    );
}

/// The lowest register that an instruction changes, if it changes one.
fn lowest_written(op: &OpCode) -> Option<u8> {
    match *op {
        OpCode::Move { dest, .. }
        | OpCode::LoadConstant { dest, .. }
        | OpCode::LoadBool { dest, .. }
        | OpCode::LoadNil { dest, .. }
        | OpCode::NewTable { dest }
        | OpCode::GetTableR { dest, .. }
        | OpCode::GetTableC { dest, .. }
        | OpCode::GetUpTableR { dest, .. }
        | OpCode::GetUpTableC { dest, .. }
        | OpCode::Closure { dest, .. }
        | OpCode::TestSet { dest, .. }
        | OpCode::GetUpValue { dest, .. }
        | OpCode::Not { dest, .. }
        | OpCode::Minus { dest, .. }
        | OpCode::BitNot { dest, .. }
        | OpCode::Length { dest, .. }
        | OpCode::Simple { dest, .. } => Some(dest.0),
        OpCode::Call { func, .. } => Some(func.0),
        _ => None,
    }
}

#[test]
fn expressions_change_no_local() {
    let product = binary(
        binary(var("a"), BinaryOperator::Sub, field("b", "x")),
        BinaryOperator::Mul,
        call("a", vec![var("b"), call("g", vec![var("a")])]),
    );
    let choice = binary(
        binary(var("b"), BinaryOperator::And, call("h", vec![])),
        BinaryOperator::Or,
        unary(UnaryOperator::Not, var("a")),
    );
    let c = chunk(vec![
        local(&["a", "b"], vec![integer(1), integer(2)]),
        local(&["c", "d"], vec![product, choice]),
        assign("y", binary(var("c"), BinaryOperator::LessEqual, var("d"))),
    ]);
    let p = compile_chunk(&c).unwrap();
    check_well_formed(&p);
    assert!(p.opcodes.len() > 20);
    for op in &p.opcodes[2..] {
        if let Some(r) = lowest_written(op) {
            assert!(r >= 2);
        }
    }
}

#[test]
fn an_assignment_changes_its_variable_alone() {
    let c = chunk(vec![
        local(&["a", "b", "c"], vec![integer(1), integer(2), integer(3)]),
        assign("b", call("a", vec![var("b"), field("c", "x")])),
    ]);
    let p = compile_chunk(&c).unwrap();
    let written: Vec<u8> = p.opcodes[3..].iter().filter_map(lowest_written).collect();
    assert!(written.iter().all(|r| *r == 1 || *r > 2));
    assert_eq!(written.last(), Some(&1));
}

#[test]
fn a_return_hands_on_what_lies_above_the_locals() {
    let c = Chunk {
        block: returning(
            vec![local(&["a", "b"], vec![])],
            vec![var("b"), integer(1), nil(), nil()],
        ),
    };
    let p = compile_chunk(&c).unwrap();
    check_well_formed(&p);
    assert_eq!(
        p.opcodes,
        vec![
            OpCode::LoadNil { dest: r(0), count: 2 },
            OpCode::Move { dest: r(2), source: r(1) },
            OpCode::LoadConstant { dest: r(3), constant: ConstantIndex16(0) },
            OpCode::LoadNil { dest: r(4), count: 2 },
            OpCode::Return { start: r(2), count: count(4) },
            end(),
        ]
    );
}

#[test]
fn a_value_is_brought_into_one_register_only() {
    let c = chunk(vec![
        local(&["t"], vec![]),
        assign("x", binary(field("t", "a"), BinaryOperator::Add, field("t", "b"))),
    ]);
    let p = compile_chunk(&c).unwrap();
    check_well_formed(&p);
    assert_eq!(
        p.opcodes[1..4],
        [
            OpCode::GetTableC { dest: r(1), table: r(0), key: ConstantIndex8(0) },
            OpCode::GetTableC { dest: r(2), table: r(0), key: ConstantIndex8(1) },
            OpCode::Simple {
                op: SimpleBinOp::Add,
                dest: r(1),
                left: RegisterOrConstant::Register(r(1)),
                right: RegisterOrConstant::Register(r(2)),
            },
        ]
    );
    assert_eq!(p.stack_size, 3);
}

fn has_environment(c: &Chunk) -> bool {
    let upvalues = compile_chunk(c).unwrap().upvalues;
    assert!(upvalues.is_empty() || upvalues == vec![UpValueDescriptor::Environment]);
    !upvalues.is_empty()
}

#[test]
fn the_environment_is_taken_when_it_is_named() {
    assert!(!has_environment(&chunk(vec![local(&["a"], vec![integer(1)])])));
    assert!(has_environment(&chunk(vec![local(&["a"], vec![var("x")])])));
    assert!(has_environment(&chunk(vec![local(&["a"], vec![var("_ENV")])])));
    assert!(has_environment(&chunk(vec![local(&[], vec![var("_ENV")])])));
    assert!(has_environment(&chunk(vec![assign("x", integer(1))])));
    let right = binary(integer(1), BinaryOperator::Or, var("x"));
    assert!(has_environment(&chunk(vec![local(&["a"], vec![right])])));
    let inner = function(&[], returning(vec![], vec![var("x")]));
    assert!(has_environment(&chunk(vec![local_function("f", inner)])));
    let stored = Statement::Function(FunctionStatement {
        name: function_name("f"),
        definition: function(&[], block(vec![])),
    });
    assert!(has_environment(&chunk(vec![local(&["f"], vec![]), stored])));
}

#[test]
fn a_local_environment_takes_the_place_of_the_environment() {
    let declared = local(&["_ENV"], vec![integer(1)]);
    assert!(!has_environment(&chunk(vec![declared, assign("x", var("y"))])));
    let inner = function(&["_ENV"], returning(vec![], vec![var("x")]));
    assert!(!has_environment(&chunk(vec![local_function("f", inner)])));
    let inside = Statement::Do(block(vec![local(&["_ENV"], vec![]), assign("x", integer(1))]));
    assert!(!has_environment(&chunk(vec![inside])));
    let inside = Statement::Do(block(vec![local(&["_ENV"], vec![]), assign("x", integer(1))]));
    assert!(has_environment(&chunk(vec![inside, assign("x", integer(1))])));
}

#[test]
fn a_value_without_a_target_does_not_take_the_environment() {
    let c = chunk(vec![
        local(&["a"], vec![]),
        Statement::Assignment(AssignmentStatement {
            targets: vec![AssignmentTarget::Name(bytes("a"))],
            values: vec![integer(1), var("x")],
        }),
    ]);
    assert!(!has_environment(&c));
}

#[test]
fn a_name_stands_for_the_same_upvalue_again() {
    let inner = function(&[], returning(vec![], vec![var("x"), var("y"), var("x")]));
    let c = chunk(vec![local(&["x", "y"], vec![]), local_function("f", inner)]);
    let p = compile_chunk(&c).unwrap();
    assert_eq!(
        p.prototypes[0].opcodes[..3],
        [
            OpCode::GetUpValue { source: UpValueIndex(0), dest: r(0) },
            OpCode::GetUpValue { source: UpValueIndex(1), dest: r(1) },
            OpCode::GetUpValue { source: UpValueIndex(0), dest: r(2) },
        ]
    );
    assert_eq!(
        p.prototypes[0].upvalues,
        vec![UpValueDescriptor::ParentLocal(r(0)), UpValueDescriptor::ParentLocal(r(1))]
    );
}
