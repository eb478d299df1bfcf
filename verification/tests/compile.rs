//! What chunks are compiled to.

use lua_compiler::compiler::{compile_chunk, try_compile_chunk};
use lua_compiler::compiler::operators::{ComparisonBinOp, RegisterOrConstant, SimpleBinOp};
use lua_compiler::function::{FunctionProto, UpValueDescriptor};
use lua_compiler::opcode::{
    ConstantIndex16, ConstantIndex8, OpCode, PrototypeIndex, RegisterIndex, UpValueIndex, VarCount,
};
use lua_compiler::parser::{
    AssignmentStatement, AssignmentTarget, BinaryOperator, Block, CallSuffix, Chunk, Expression,
    FieldSuffix, FunctionCallStatement, FunctionDefinition, FunctionName, FunctionStatement,
    HeadExpression, IfStatement, LocalStatement, PrimaryExpression, ReturnStatement,
    SimpleExpression, Statement, SuffixPart, SuffixedExpression, TableConstructor, UnaryOperator,
};
use lua_compiler::value::Value;

fn bytes(s: &str) -> Box<[u8]> {
    s.as_bytes().into()
}

fn simple(s: SimpleExpression) -> Expression {
    Expression { head: Box::new(HeadExpression::Simple(s)), tail: Vec::new() }
}

fn integer(i: i64) -> Expression {
    simple(SimpleExpression::Integer(i))
}

fn nil() -> Expression {
    simple(SimpleExpression::Nil)
}

fn suffixed(name: &str, suffixes: Vec<SuffixPart>) -> SuffixedExpression {
    SuffixedExpression { primary: PrimaryExpression::Name(bytes(name)), suffixes }
}

fn var(name: &str) -> Expression {
    simple(SimpleExpression::Suffixed(suffixed(name, Vec::new())))
}

fn call(name: &str, args: Vec<Expression>) -> Expression {
    simple(SimpleExpression::Suffixed(suffixed(
        name,
        vec![SuffixPart::Call(CallSuffix::Function(args))],
    )))
}

fn field(name: &str, key: &str) -> Expression {
    simple(SimpleExpression::Suffixed(suffixed(
        name,
        vec![SuffixPart::Field(FieldSuffix::Named(bytes(key)))],
    )))
}

fn binary(left: Expression, op: BinaryOperator, right: Expression) -> Expression {
    let mut e = left;
    e.tail.push((op, right));
    e
}

fn unary(op: UnaryOperator, e: Expression) -> Expression {
    Expression { head: Box::new(HeadExpression::UnaryOperator(op, e)), tail: Vec::new() }
}

fn local(names: &[&str], values: Vec<Expression>) -> Statement {
    Statement::LocalStatement(LocalStatement {
        names: names.iter().map(|n| bytes(n)).collect(),
        values,
    })
}

fn assign(name: &str, value: Expression) -> Statement {
    Statement::Assignment(AssignmentStatement {
        targets: vec![AssignmentTarget::Name(bytes(name))],
        values: vec![value],
    })
}

fn call_statement(name: &str, args: Vec<Expression>) -> Statement {
    Statement::FunctionCall(FunctionCallStatement {
        head: suffixed(name, Vec::new()),
        call: CallSuffix::Function(args),
    })
}

fn block(statements: Vec<Statement>) -> Block {
    Block { statements, return_statement: None }
}

fn returning(statements: Vec<Statement>, returns: Vec<Expression>) -> Block {
    Block { statements, return_statement: Some(ReturnStatement { returns }) }
}

fn chunk(statements: Vec<Statement>) -> Chunk {
    Chunk { block: block(statements) }
}

fn function(parameters: &[&str], body: Block) -> FunctionDefinition {
    FunctionDefinition {
        parameters: parameters.iter().map(|n| bytes(n)).collect(),
        has_varargs: false,
        body,
    }
}

fn function_name(name: &str) -> FunctionName {
    FunctionName { name: bytes(name), fields: Vec::new(), method: None }
}

fn local_function(name: &str, definition: FunctionDefinition) -> Statement {
    Statement::LocalFunction(FunctionStatement { name: function_name(name), definition })
}

fn r(i: u8) -> RegisterIndex {
    RegisterIndex(i)
}

fn end() -> OpCode {
    OpCode::Return { start: r(0), count: VarCount::make_zero() }
}

fn count(n: u8) -> VarCount {
    VarCount::make_constant(n).unwrap()
}

fn k(i: u16) -> ConstantIndex16 {
    ConstantIndex16(i)
}

fn k8(i: u8) -> ConstantIndex8 {
    ConstantIndex8(i)
}

fn up(i: u8) -> UpValueIndex {
    UpValueIndex(i)
}

fn reg(i: u8) -> RegisterOrConstant {
    RegisterOrConstant::Register(r(i))
}

fn con(i: u8) -> RegisterOrConstant {
    RegisterOrConstant::Constant(k8(i))
}

fn nil_run(dest: u8, count: u8) -> OpCode {
    OpCode::LoadNil { dest: r(dest), count }
}

fn compiled(chunk: &Chunk) -> FunctionProto<'_> {
    try_compile_chunk(chunk).unwrap()
}

#[test]
fn empty_chunk_returns_nothing() {
    let c = chunk(vec![]);
    let p = compiled(&c);
    assert_eq!(p.opcodes, vec![end()]);
    assert_eq!(p.stack_size, 0);
    assert_eq!(p.fixed_params, 0);
    assert!(!p.has_varargs);
    assert!(p.constants.is_empty());
    assert!(p.upvalues.is_empty());
    assert!(p.prototypes.is_empty());
}

#[test]
fn compile_chunk_gives_the_same() {
    let c = Chunk { block: returning(vec![local(&["a"], vec![integer(7)])], vec![var("a")]) };
    assert_eq!(compile_chunk(&c).unwrap(), try_compile_chunk(&c).unwrap());
}

#[test]
fn return_of_a_constant() {
    let c = Chunk { block: returning(vec![], vec![integer(1)]) };
    let p = compiled(&c);
    assert_eq!(
        p.opcodes,
        vec![
            OpCode::LoadConstant { dest: r(0), constant: k(0) },
            OpCode::Return { start: r(0), count: count(1) },
            end(),
        ]
    );
    assert_eq!(p.constants, vec![Value::Integer(1)]);
    assert_eq!(p.stack_size, 1);
}

#[test]
fn return_without_values() {
    let c = Chunk { block: returning(vec![], vec![]) };
    assert_eq!(compiled(&c).opcodes, vec![end(), end()]);
}

#[test]
fn return_of_a_local_copies_it_to_the_top() {
    let c = Chunk {
        block: returning(vec![local(&["a"], vec![nil()])], vec![var("a"), integer(2)]),
    };
    assert_eq!(
        compiled(&c).opcodes,
        vec![
            nil_run(0, 1),
            OpCode::Move { dest: r(1), source: r(0) },
            OpCode::LoadConstant { dest: r(2), constant: k(0) },
            OpCode::Return { start: r(1), count: count(2) },
            end(),
        ]
    );
}

#[test]
fn return_of_a_call_hands_on_all_results() {
    let c = Chunk { block: returning(vec![local(&["f"], vec![])], vec![call("f", vec![])]) };
    assert_eq!(
        compiled(&c).opcodes,
        vec![
            nil_run(0, 1),
            OpCode::Move { dest: r(1), source: r(0) },
            OpCode::Call {
                func: r(1),
                args: VarCount::make_zero(),
                returns: VarCount::make_variable(),
            },
            OpCode::Return { start: r(1), count: VarCount::make_variable() },
            end(),
        ]
    );
}

#[test]
fn each_kind_of_literal() {
    let c = chunk(vec![local(
        &["a", "b", "c", "d", "e", "f"],
        vec![
            nil(),
            simple(SimpleExpression::True),
            simple(SimpleExpression::False),
            simple(SimpleExpression::Float(2.5f64.to_bits())),
            simple(SimpleExpression::String(bytes("s"))),
            simple(SimpleExpression::TableConstructor(TableConstructor { fields: vec![] })),
        ],
    )]);
    let p = compiled(&c);
    assert_eq!(
        p.opcodes,
        vec![
            nil_run(0, 1),
            OpCode::LoadBool { dest: r(1), value: true, skip_next: false },
            OpCode::LoadBool { dest: r(2), value: false, skip_next: false },
            OpCode::LoadConstant { dest: r(3), constant: k(0) },
            OpCode::LoadConstant { dest: r(4), constant: k(1) },
            OpCode::NewTable { dest: r(5) },
            end(),
        ]
    );
    assert_eq!(p.constants, vec![Value::Number(2.5f64.to_bits()), Value::String(b"s")]);
    assert_eq!(p.stack_size, 6);
}

#[test]
fn names_without_values_become_nil_in_one_run() {
    let c = chunk(vec![local(&["a", "b", "c"], vec![])]);
    assert_eq!(compiled(&c).opcodes, vec![nil_run(0, 3), end()]);
}

#[test]
fn a_run_goes_on_over_statements() {
    let c = chunk(vec![
        local(&["a"], vec![integer(1)]),
        local(&["b"], vec![]),
        local(&["c", "d"], vec![nil()]),
        call_statement("b", vec![nil(), nil()]),
    ]);
    assert_eq!(
        compiled(&c).opcodes,
        vec![
            OpCode::LoadConstant { dest: r(0), constant: k(0) },
            nil_run(1, 3),
            OpCode::Move { dest: r(4), source: r(1) },
            nil_run(5, 2),
            OpCode::Call { func: r(4), args: count(2), returns: count(0) },
            end(),
        ]
    );
}

#[test]
fn a_run_does_not_go_on_where_a_branch_ends() {
    let c = chunk(vec![
        local(&["c", "a"], vec![]),
        Statement::If(IfStatement {
            if_part: (var("c"), block(vec![])),
            else_if_parts: vec![],
            else_part: Some(block(vec![assign("a", nil())])),
        }),
        local(&["b", "d"], vec![]),
    ]);
    assert_eq!(
        compiled(&c).opcodes,
        vec![
            nil_run(0, 2),
            OpCode::Test { value: r(0), is_true: true },
            OpCode::Jump { offset: 1 },
            OpCode::Jump { offset: 1 },
            nil_run(1, 1),
            nil_run(2, 2),
            end(),
        ]
    );
}

#[test]
fn a_run_does_not_go_on_behind_a_right_operand() {
    let c = chunk(vec![
        local(&["a"], vec![]),
        local(&["b"], vec![binary(var("a"), BinaryOperator::And, nil())]),
        local(&["c", "d"], vec![]),
    ]);
    assert_eq!(
        compiled(&c).opcodes,
        vec![
            nil_run(0, 1),
            OpCode::TestSet { dest: r(1), value: r(0), is_true: true },
            OpCode::Jump { offset: 1 },
            nil_run(1, 1),
            nil_run(2, 2),
            end(),
        ]
    );
}

#[test]
fn a_nil_elsewhere_starts_a_new_run() {
    let c = chunk(vec![local(&["a"], vec![]), assign("a", nil())]);
    assert_eq!(compiled(&c).opcodes, vec![nil_run(0, 1), nil_run(0, 1), end()]);
}

#[test]
fn values_without_names_are_evaluated_nowhere() {
    let c = chunk(vec![local(&["f"], vec![nil(), integer(1), call("f", vec![])])]);
    assert_eq!(
        compiled(&c).opcodes,
        vec![
            nil_run(0, 1),
            OpCode::Move { dest: r(1), source: r(0) },
            OpCode::Call { func: r(1), args: count(0), returns: count(1) },
            end(),
        ]
    );
}

#[test]
fn a_last_call_fills_the_names_that_are_left() {
    let c = chunk(vec![
        local(&["f"], vec![]),
        local(&["a", "b", "c"], vec![integer(5), call("f", vec![])]),
        assign("b", var("c")),
    ]);
    assert_eq!(
        compiled(&c).opcodes,
        vec![
            nil_run(0, 1),
            OpCode::LoadConstant { dest: r(1), constant: k(0) },
            OpCode::Move { dest: r(2), source: r(0) },
            OpCode::Call { func: r(2), args: count(0), returns: count(2) },
            OpCode::Move { dest: r(2), source: r(3) },
            end(),
        ]
    );
}

#[test]
fn globals_are_fields_of_the_environment() {
    let c = chunk(vec![assign("x", var("y"))]);
    let p = compiled(&c);
    assert_eq!(
        p.opcodes,
        vec![
            OpCode::GetUpTableC { dest: r(0), table: up(0), key: k8(0) },
            OpCode::SetUpTableCR { table: up(0), key: k8(1), value: r(0) },
            end(),
        ]
    );
    assert_eq!(p.constants, vec![Value::String(b"y"), Value::String(b"x")]);
    assert_eq!(p.upvalues, vec![UpValueDescriptor::Environment]);
}

#[test]
fn a_local_environment_is_used() {
    let c = chunk(vec![local(&["_ENV"], vec![]), assign("x", integer(1))]);
    let p = compiled(&c);
    assert_eq!(
        p.opcodes,
        vec![
            nil_run(0, 1),
            OpCode::SetTableCC { table: r(0), key: k8(0), value: k8(1) },
            end(),
        ]
    );
    assert!(p.upvalues.is_empty());
}

#[test]
fn the_environment_has_a_name() {
    let c = Chunk { block: returning(vec![], vec![var("_ENV")]) };
    let p = compiled(&c);
    assert_eq!(
        p.opcodes,
        vec![
            OpCode::GetUpValue { source: up(0), dest: r(0) },
            OpCode::Return { start: r(0), count: count(1) },
            end(),
        ]
    );
    assert_eq!(p.upvalues, vec![UpValueDescriptor::Environment]);
}

#[test]
fn more_targets_than_values() {
    let c = chunk(vec![
        local(&["a"], vec![]),
        Statement::Assignment(AssignmentStatement {
            targets: vec![
                AssignmentTarget::Name(bytes("a")),
                AssignmentTarget::Name(bytes("g")),
            ],
            values: vec![integer(3)],
        }),
    ]);
    let p = compiled(&c);
    assert_eq!(
        p.opcodes,
        vec![
            nil_run(0, 1),
            OpCode::LoadConstant { dest: r(0), constant: k(0) },
            OpCode::SetUpTableCC { table: up(0), key: k8(1), value: k8(2) },
            end(),
        ]
    );
    assert_eq!(p.constants, vec![Value::Integer(3), Value::String(b"g"), Value::Nil]);
}

#[test]
fn fields_are_written_with_any_key_and_value() {
    let target = |key: FieldSuffix| AssignmentTarget::Field(suffixed("t", vec![]), key);
    let write = |key: FieldSuffix, value: Expression| {
        Statement::Assignment(AssignmentStatement {
            targets: vec![target(key)],
            values: vec![value],
        })
    };
    let c = chunk(vec![
        local(&["t", "i"], vec![]),
        write(FieldSuffix::Named(bytes("x")), integer(1)),
        write(FieldSuffix::Named(bytes("x")), var("i")),
        write(FieldSuffix::Indexed(var("i")), integer(1)),
        write(FieldSuffix::Indexed(var("i")), var("t")),
    ]);
    assert_eq!(
        compiled(&c).opcodes,
        vec![
            nil_run(0, 2),
            OpCode::SetTableCC { table: r(0), key: k8(0), value: k8(1) },
            OpCode::SetTableCR { table: r(0), key: k8(0), value: r(1) },
            OpCode::SetTableRC { table: r(0), key: r(1), value: k8(1) },
            OpCode::SetTableRR { table: r(0), key: r(1), value: r(0) },
            end(),
        ]
    );
}

#[test]
fn fields_are_read_with_any_key() {
    let indexed = simple(SimpleExpression::Suffixed(suffixed(
        "t",
        vec![SuffixPart::Field(FieldSuffix::Indexed(var("i")))],
    )));
    let c = chunk(vec![
        local(&["t", "i"], vec![]),
        local(&["a", "b"], vec![field("t", "x"), indexed]),
    ]);
    assert_eq!(
        compiled(&c).opcodes,
        vec![
            nil_run(0, 2),
            OpCode::GetTableC { dest: r(2), table: r(0), key: k8(0) },
            OpCode::GetTableR { dest: r(3), table: r(0), key: r(1) },
            end(),
        ]
    );
}

#[test]
fn upvalue_tables_with_register_keys_and_values() {
    let env = |key: Expression| {
        simple(SimpleExpression::Suffixed(suffixed(
            "_ENV",
            vec![SuffixPart::Field(FieldSuffix::Indexed(key))],
        )))
    };
    let write = |key: Expression, value: Expression| {
        Statement::Assignment(AssignmentStatement {
            targets: vec![AssignmentTarget::Field(
                suffixed("_ENV", vec![]),
                FieldSuffix::Indexed(key),
            )],
            values: vec![value],
        })
    };
    let c = chunk(vec![
        local(&["i"], vec![]),
        local(&["a"], vec![env(var("i"))]),
        write(var("i"), var("a")),
        write(var("i"), integer(4)),
    ]);
    assert_eq!(
        compiled(&c).opcodes,
        vec![
            nil_run(0, 1),
            OpCode::GetUpTableR { dest: r(1), table: up(0), key: r(0) },
            OpCode::SetUpTableRR { table: up(0), key: r(0), value: r(1) },
            OpCode::SetUpTableRC { table: up(0), key: r(0), value: k8(0) },
            end(),
        ]
    );
}

#[test]
fn an_if_without_else() {
    let c = chunk(vec![
        local(&["a"], vec![]),
        Statement::If(IfStatement {
            if_part: (var("a"), block(vec![assign("a", integer(1))])),
            else_if_parts: vec![],
            else_part: None,
        }),
    ]);
    assert_eq!(
        compiled(&c).opcodes,
        vec![
            nil_run(0, 1),
            OpCode::Test { value: r(0), is_true: true },
            OpCode::Jump { offset: 2 },
            OpCode::LoadConstant { dest: r(0), constant: k(0) },
            OpCode::Jump { offset: 0 },
            end(),
        ]
    );
}

#[test]
fn an_if_with_all_its_parts() {
    let c = chunk(vec![
        local(&["a"], vec![]),
        Statement::If(IfStatement {
            if_part: (
                unary(UnaryOperator::Not, var("a")),
                block(vec![assign("a", integer(1))]),
            ),
            else_if_parts: vec![(
                binary(var("a"), BinaryOperator::Equal, integer(2)),
                block(vec![assign("a", integer(3))]),
            )],
            else_part: Some(block(vec![assign("a", integer(4))])),
        }),
    ]);
    assert_eq!(
        compiled(&c).opcodes,
        vec![
            nil_run(0, 1),
            OpCode::Test { value: r(0), is_true: false },
            OpCode::Jump { offset: 2 },
            OpCode::LoadConstant { dest: r(0), constant: k(0) },
            OpCode::Jump { offset: 5 },
            OpCode::Compare { op: ComparisonBinOp::Equal, left: reg(0), right: con(1) },
            OpCode::Jump { offset: 2 },
            OpCode::LoadConstant { dest: r(0), constant: k(2) },
            OpCode::Jump { offset: 1 },
            OpCode::LoadConstant { dest: r(0), constant: k(3) },
            end(),
        ]
    );
}

#[test]
fn a_comparison_becomes_a_boolean() {
    let c = chunk(vec![
        local(&["a"], vec![]),
        local(&["b"], vec![binary(var("a"), BinaryOperator::LessThan, integer(1))]),
    ]);
    assert_eq!(
        compiled(&c).opcodes,
        vec![
            nil_run(0, 1),
            OpCode::Compare { op: ComparisonBinOp::LessThan, left: reg(0), right: con(0) },
            OpCode::Jump { offset: 1 },
            OpCode::LoadBool { dest: r(1), value: false, skip_next: true },
            OpCode::LoadBool { dest: r(1), value: true, skip_next: false },
            end(),
        ]
    );
}

#[test]
fn a_comparison_without_a_destination() {
    let c = chunk(vec![
        local(&["a"], vec![]),
        local(&[], vec![binary(var("a"), BinaryOperator::LessEqual, var("a"))]),
    ]);
    assert_eq!(
        compiled(&c).opcodes,
        vec![
            nil_run(0, 1),
            OpCode::Compare { op: ComparisonBinOp::LessEqual, left: reg(0), right: reg(0) },
            OpCode::Jump { offset: 0 },
            end(),
        ]
    );
}

#[test]
fn and_goes_on_where_the_left_operand_is_true() {
    let c = chunk(vec![
        local(&["a"], vec![]),
        local(&["b"], vec![binary(var("a"), BinaryOperator::And, integer(1))]),
    ]);
    assert_eq!(
        compiled(&c).opcodes,
        vec![
            nil_run(0, 1),
            OpCode::TestSet { dest: r(1), value: r(0), is_true: true },
            OpCode::Jump { offset: 1 },
            OpCode::LoadConstant { dest: r(1), constant: k(0) },
            end(),
        ]
    );
}

#[test]
fn or_in_place_tests_the_register_itself() {
    let c = chunk(vec![
        local(&["a"], vec![]),
        assign("a", binary(var("a"), BinaryOperator::Or, integer(1))),
    ]);
    assert_eq!(
        compiled(&c).opcodes,
        vec![
            nil_run(0, 1),
            OpCode::Test { value: r(0), is_true: false },
            OpCode::Jump { offset: 1 },
            OpCode::LoadConstant { dest: r(0), constant: k(0) },
            end(),
        ]
    );
}

#[test]
fn operators_on_registers_and_constants() {
    let c = chunk(vec![
        local(&["a"], vec![]),
        local(
            &["b", "c"],
            vec![
                binary(var("a"), BinaryOperator::Add, integer(1)),
                unary(UnaryOperator::Len, var("a")),
            ],
        ),
        local(
            &["d", "e", "f"],
            vec![
                unary(UnaryOperator::Not, var("a")),
                unary(UnaryOperator::Minus, var("a")),
                unary(UnaryOperator::BitNot, var("a")),
            ],
        ),
    ]);
    assert_eq!(
        compiled(&c).opcodes,
        vec![
            nil_run(0, 1),
            OpCode::Simple { op: SimpleBinOp::Add, dest: r(1), left: reg(0), right: con(0) },
            OpCode::Length { dest: r(2), source: r(0) },
            OpCode::Not { dest: r(3), source: r(0) },
            OpCode::Minus { dest: r(4), source: r(0) },
            OpCode::BitNot { dest: r(5), source: r(0) },
            end(),
        ]
    );
}

#[test]
fn constants_are_folded() {
    let c = Chunk {
        block: returning(
            vec![],
            vec![
                binary(integer(1), BinaryOperator::Add, integer(2)),
                binary(integer(1), BinaryOperator::LessThan, integer(2)),
                unary(UnaryOperator::Not, nil()),
            ],
        ),
    };
    let p = compiled(&c);
    assert_eq!(
        p.opcodes,
        vec![
            OpCode::LoadConstant { dest: r(0), constant: k(0) },
            OpCode::LoadBool { dest: r(1), value: true, skip_next: false },
            OpCode::LoadBool { dest: r(2), value: true, skip_next: false },
            OpCode::Return { start: r(0), count: count(3) },
            end(),
        ]
    );
    assert_eq!(p.constants, vec![Value::Integer(3)]);
}

#[test]
fn operators_are_applied_from_left_to_right() {
    let c = chunk(vec![
        local(&["a"], vec![]),
        local(
            &["b"],
            vec![binary(
                binary(var("a"), BinaryOperator::Sub, integer(1)),
                BinaryOperator::Mul,
                var("a"),
            )],
        ),
    ]);
    assert_eq!(
        compiled(&c).opcodes,
        vec![
            nil_run(0, 1),
            OpCode::Simple { op: SimpleBinOp::Sub, dest: r(1), left: reg(0), right: con(0) },
            OpCode::Simple { op: SimpleBinOp::Mul, dest: r(1), left: reg(1), right: reg(0) },
            end(),
        ]
    );
}

#[test]
fn arguments_lie_directly_behind_the_function() {
    let c = chunk(vec![
        local(&["f"], vec![]),
        call_statement("f", vec![integer(1), var("f"), nil()]),
    ]);
    assert_eq!(
        compiled(&c).opcodes,
        vec![
            nil_run(0, 1),
            OpCode::Move { dest: r(1), source: r(0) },
            OpCode::LoadConstant { dest: r(2), constant: k(0) },
            OpCode::Move { dest: r(3), source: r(0) },
            nil_run(4, 1),
            OpCode::Call { func: r(1), args: count(3), returns: VarCount::make_zero() },
            end(),
        ]
    );
}

#[test]
fn a_last_argument_that_is_a_call_hands_on_all_results() {
    let c = chunk(vec![call_statement("f", vec![integer(1), call("g", vec![])])]);
    assert_eq!(
        compiled(&c).opcodes,
        vec![
            OpCode::GetUpTableC { dest: r(0), table: up(0), key: k8(0) },
            OpCode::GetUpTableC { dest: r(1), table: up(0), key: k8(1) },
            OpCode::Move { dest: r(2), source: r(0) },
            OpCode::LoadConstant { dest: r(3), constant: k(2) },
            OpCode::Move { dest: r(4), source: r(1) },
            OpCode::Call {
                func: r(4),
                args: VarCount::make_zero(),
                returns: VarCount::make_variable(),
            },
            OpCode::Call {
                func: r(2),
                args: VarCount::make_variable(),
                returns: VarCount::make_zero(),
            },
            end(),
        ]
    );
}

#[test]
fn the_result_of_a_call_is_assigned() {
    let c = chunk(vec![local(&["f"], vec![]), assign("f", call("f", vec![]))]);
    assert_eq!(
        compiled(&c).opcodes,
        vec![
            nil_run(0, 1),
            OpCode::Move { dest: r(1), source: r(0) },
            OpCode::Call { func: r(1), args: count(0), returns: count(1) },
            OpCode::Move { dest: r(0), source: r(1) },
            end(),
        ]
    );
}

#[test]
fn a_global_function() {
    let c = chunk(vec![Statement::Function(FunctionStatement {
        name: function_name("f"),
        definition: function(&["a", "b"], returning(vec![], vec![var("b")])),
    })]);
    let p = compiled(&c);
    assert_eq!(
        p.opcodes,
        vec![
            OpCode::Closure { proto: PrototypeIndex(0), dest: r(0) },
            OpCode::SetUpTableCR { table: up(0), key: k8(0), value: r(0) },
            end(),
        ]
    );
    let f = &p.prototypes[0];
    assert_eq!(f.fixed_params, 2);
    assert_eq!(f.stack_size, 3);
    assert_eq!(
        f.opcodes,
        vec![
            OpCode::Move { dest: r(2), source: r(1) },
            OpCode::Return { start: r(2), count: count(1) },
            end(),
        ]
    );
}

#[test]
fn variable_arguments_of_a_definition_are_dropped() {
    let mut f = function(&["a"], block(vec![]));
    f.has_varargs = true;
    let c = chunk(vec![local_function("f", f)]);
    assert!(!compiled(&c).prototypes[0].has_varargs);
}

#[test]
fn a_local_of_the_enclosing_function_is_an_upvalue() {
    let c = chunk(vec![
        local(&["x"], vec![]),
        local_function(
            "f",
            function(&[], returning(vec![assign("x", integer(1))], vec![var("x")])),
        ),
    ]);
    let p = compiled(&c);
    assert_eq!(
        p.opcodes,
        vec![nil_run(0, 1), OpCode::Closure { proto: PrototypeIndex(0), dest: r(1) }, end()]
    );
    let f = &p.prototypes[0];
    assert_eq!(f.upvalues, vec![UpValueDescriptor::ParentLocal(r(0))]);
    assert_eq!(
        f.opcodes,
        vec![
            OpCode::LoadConstant { dest: r(0), constant: k(0) },
            OpCode::SetUpValue { source: r(0), dest: up(0) },
            OpCode::GetUpValue { source: up(0), dest: r(0) },
            OpCode::Return { start: r(0), count: count(1) },
            end(),
        ]
    );
}

#[test]
fn an_upvalue_is_handed_down_through_each_function() {
    let inner = function(&[], returning(vec![], vec![var("x"), var("g")]));
    let middle = function(&[], block(vec![local_function("inner", inner)]));
    let c = chunk(vec![local(&["y", "x"], vec![]), local_function("middle", middle)]);
    let p = compiled(&c);
    let middle = &p.prototypes[0];
    let inner = &middle.prototypes[0];
    assert_eq!(p.upvalues, vec![UpValueDescriptor::Environment]);
    assert_eq!(
        middle.upvalues,
        vec![UpValueDescriptor::ParentLocal(r(1)), UpValueDescriptor::Outer(up(0))]
    );
    assert_eq!(
        inner.upvalues,
        vec![UpValueDescriptor::Outer(up(0)), UpValueDescriptor::Outer(up(1))]
    );
    assert_eq!(
        inner.opcodes,
        vec![
            OpCode::GetUpValue { source: up(0), dest: r(0) },
            OpCode::GetUpTableC { dest: r(1), table: up(1), key: k8(0) },
            OpCode::Return { start: r(0), count: count(2) },
            end(),
        ]
    );
}

#[test]
fn a_function_expression() {
    let c = chunk(vec![local(
        &["f"],
        vec![simple(SimpleExpression::Function(function(&[], block(vec![]))))],
    )]);
    assert_eq!(
        compiled(&c).opcodes,
        vec![OpCode::Closure { proto: PrototypeIndex(0), dest: r(0) }, end()]
    );
}

#[test]
fn a_grouped_expression() {
    let group = simple(SimpleExpression::Suffixed(SuffixedExpression {
        primary: PrimaryExpression::GroupedExpression(binary(
            integer(2),
            BinaryOperator::Mul,
            integer(3),
        )),
        suffixes: vec![],
    }));
    let c = chunk(vec![local(&["a"], vec![group])]);
    assert_eq!(compiled(&c).constants, vec![Value::Integer(6)]);
}
