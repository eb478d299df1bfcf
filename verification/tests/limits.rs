//! What is too much for the machine or unknown to the compiler.

use lua_compiler::compiler::{compile_chunk, try_compile_chunk, CompilerError, Feature, Halt};
use lua_compiler::compiler::operators::{RegisterOrConstant, SimpleBinOp};
use lua_compiler::opcode::{
    ConstantIndex16, ConstantIndex8, OpCode, PrototypeIndex, RegisterIndex, VarCount,
};
use lua_compiler::parser::{
    AssignmentStatement, AssignmentTarget, BinaryOperator, Block, CallSuffix, Chunk,
    ConstructorField, Expression, ForStatement, FunctionCallStatement, FunctionDefinition,
    FunctionName, FunctionStatement, GotoStatement, HeadExpression, IfStatement, LabelStatement,
    LocalStatement, PrimaryExpression, RecordKey, RepeatStatement, ReturnStatement,
    SimpleExpression, Statement, SuffixPart, SuffixedExpression, TableConstructor, WhileStatement,
};

fn bytes(s: &str) -> Box<[u8]> {
    s.as_bytes().into()
}

fn simple(s: SimpleExpression) -> Expression {
    Expression { head: Box::new(HeadExpression::Simple(s)), tail: Vec::new() }
}

fn integer(i: i64) -> Expression {
    simple(SimpleExpression::Integer(i))
}

fn nil() -> Expression {
    simple(SimpleExpression::Nil)
}

fn suffixed(name: &str, suffixes: Vec<SuffixPart>) -> SuffixedExpression {
    SuffixedExpression { primary: PrimaryExpression::Name(bytes(name)), suffixes }
}

fn var(name: &str) -> Expression {
    simple(SimpleExpression::Suffixed(suffixed(name, Vec::new())))
}

fn call(name: &str, args: Vec<Expression>) -> Expression {
    simple(SimpleExpression::Suffixed(suffixed(
        name,
        vec![SuffixPart::Call(CallSuffix::Function(args))],
    )))
}

fn binary(left: Expression, op: BinaryOperator, right: Expression) -> Expression {
    let mut e = left;
    e.tail.push((op, right));
    e
}

fn local(names: &[&str], values: Vec<Expression>) -> Statement {
    Statement::LocalStatement(LocalStatement {
        names: names.iter().map(|n| bytes(n)).collect(),
        values,
    })
}

fn assign(name: &str, value: Expression) -> Statement {
    Statement::Assignment(AssignmentStatement {
        targets: vec![AssignmentTarget::Name(bytes(name))],
        values: vec![value],
    })
}

fn call_statement(name: &str, args: Vec<Expression>) -> Statement {
    Statement::FunctionCall(FunctionCallStatement {
        head: suffixed(name, Vec::new()),
        call: CallSuffix::Function(args),
    })
}

fn block(statements: Vec<Statement>) -> Block {
    Block { statements, return_statement: None }
}

fn returning(statements: Vec<Statement>, returns: Vec<Expression>) -> Block {
    Block { statements, return_statement: Some(ReturnStatement { returns }) }
}

fn chunk(statements: Vec<Statement>) -> Chunk {
    Chunk { block: block(statements) }
}

fn function(parameters: &[&str], body: Block) -> FunctionDefinition {
    FunctionDefinition {
        parameters: parameters.iter().map(|n| bytes(n)).collect(),
        has_varargs: false,
        body,
    }
}

fn function_name(name: &str) -> FunctionName {
    FunctionName { name: bytes(name), fields: Vec::new(), method: None }
}

fn local_function(name: &str, definition: FunctionDefinition) -> Statement {
    Statement::LocalFunction(FunctionStatement { name: function_name(name), definition })
}

fn r(i: u8) -> RegisterIndex {
    RegisterIndex(i)
}

fn end() -> OpCode {
    OpCode::Return { start: r(0), count: VarCount::make_zero() }
}

fn names(prefix: &str, n: usize) -> Vec<Box<[u8]>> {
    (0..n).map(|i| bytes(&format!("{}{}", prefix, i))).collect()
}

fn table() -> Expression {
    simple(SimpleExpression::TableConstructor(TableConstructor { fields: vec![] }))
}

fn outcome(chunk: &Chunk) -> Result<(), Halt> {
    match try_compile_chunk(chunk) {
        Ok(_) => Ok(()),
        Err(h) => Err(h),
    }
}

fn stops(chunk: &Chunk) -> Halt {
    outcome(chunk).unwrap_err()
}

fn in_function(statement: Statement) -> Chunk {
    chunk(vec![local_function("f", function(&[], block(vec![statement])))])
}

#[test]
fn messages_of_the_errors() {
    let expected = [
        (CompilerError::Registers, "insufficient available registers"),
        (CompilerError::UpValues, "too many upvalues"),
        (CompilerError::Returns, "too many returns"),
        (CompilerError::FixedParameters, "too many fixed parameters"),
        (CompilerError::Functions, "too many inner functions"),
        (CompilerError::Constants, "too many constants"),
        (CompilerError::OpCodes, "too many opcodes"),
    ];
    for (error, message) in expected {
        assert_eq!(error.message(), message);
    }
}

fn local_tables(n: usize) -> Chunk {
    chunk(
        names("v", n)
            .into_iter()
            .map(|name| {
                Statement::LocalStatement(LocalStatement {
                    names: vec![name],
                    values: vec![table()],
                })
            })
            .collect(),
    )
}

#[test]
fn there_are_256_registers() {
    let c = local_tables(256);
    assert_eq!(try_compile_chunk(&c).unwrap().stack_size, 256);
    assert_eq!(stops(&local_tables(257)), Halt::Error(CompilerError::Registers));
    assert_eq!(compile_chunk(&local_tables(257)), Err(CompilerError::Registers));
}

#[test]
fn a_return_needs_a_register() {
    let mut c = local_tables(256);
    c.block.return_statement = Some(ReturnStatement { returns: vec![integer(1)] });
    assert_eq!(stops(&c), Halt::Error(CompilerError::Registers));
    let mut c = local_tables(255);
    c.block.return_statement = Some(ReturnStatement { returns: vec![integer(1)] });
    assert_eq!(outcome(&c), Ok(()));
}

fn captured(locals: usize, middle: usize) -> Chunk {
    let mut uses = Vec::new();
    for name in names("a", locals).into_iter().chain(names("b", middle)) {
        uses.push(Statement::LocalStatement(LocalStatement {
            names: vec![],
            values: vec![simple(SimpleExpression::Suffixed(SuffixedExpression {
                primary: PrimaryExpression::Name(name),
                suffixes: vec![],
            }))],
        }));
    }
    let inner = local_function("g", function(&[], block(uses)));
    let mut body = vec![Statement::LocalStatement(LocalStatement {
        names: names("b", middle),
        values: vec![],
    })];
    body.push(inner);
    chunk(vec![
        Statement::LocalStatement(LocalStatement { names: names("a", locals), values: vec![] }),
        local_function("f", function(&[], block(body))),
    ])
}

#[test]
fn there_are_256_upvalues() {
    let c = captured(200, 56);
    let p = try_compile_chunk(&c).unwrap();
    assert_eq!(p.prototypes[0].prototypes[0].upvalues.len(), 256);
    assert_eq!(stops(&captured(200, 57)), Halt::Error(CompilerError::UpValues));
}

#[test]
fn at_most_254_values_are_returned() {
    let many = |n: usize| Chunk {
        block: returning(vec![], (0..n).map(|_| simple(SimpleExpression::True)).collect()),
    };
    assert_eq!(outcome(&many(254)), Ok(()));
    assert_eq!(stops(&many(255)), Halt::Error(CompilerError::Returns));
}

#[test]
fn a_call_has_at_most_254_results() {
    let many = |n: usize| {
        chunk(vec![Statement::LocalStatement(LocalStatement {
            names: names("v", n),
            values: vec![call("f", vec![])],
        })])
    };
    assert_eq!(outcome(&many(254)), Ok(()));
    assert_eq!(stops(&many(255)), Halt::Error(CompilerError::Returns));
    assert_eq!(stops(&many(256)), Halt::Error(CompilerError::Registers));
}

#[test]
fn a_function_has_at_most_255_parameters() {
    let many = |n: usize| {
        let mut f = function(&[], block(vec![]));
        f.parameters = names("p", n);
        chunk(vec![local_function("f", f)])
    };
    let c = many(255);
    assert_eq!(try_compile_chunk(&c).unwrap().prototypes[0].fixed_params, 255);
    assert_eq!(stops(&many(256)), Halt::Error(CompilerError::FixedParameters));
}

#[test]
fn a_call_has_at_most_254_arguments() {
    let many = |n: usize| {
        chunk(vec![call_statement(
            "f",
            (0..n).map(|_| simple(SimpleExpression::True)).collect(),
        )])
    };
    assert_eq!(outcome(&many(254)), Ok(()));
    assert_eq!(stops(&many(255)), Halt::Error(CompilerError::FixedParameters));
    assert_eq!(stops(&many(256)), Halt::Error(CompilerError::FixedParameters));
}

#[test]
fn there_are_256_inner_functions() {
    let many = |n: usize| {
        chunk(
            (0..n)
                .map(|_| {
                    Statement::Function(FunctionStatement {
                        name: function_name("f"),
                        definition: function(&[], block(vec![])),
                    })
                })
                .collect(),
        )
    };
    let c = many(256);
    let p = try_compile_chunk(&c).unwrap();
    assert_eq!(p.prototypes.len(), 256);
    assert_eq!(p.opcodes[510], OpCode::Closure { proto: PrototypeIndex(255), dest: r(0) });
    assert_eq!(stops(&many(257)), Halt::Error(CompilerError::Functions));
}

#[test]
fn there_are_65536_constants() {
    let many = |n: i64| {
        let mut statements = vec![local(&["a"], vec![])];
        for i in 0..n {
            statements.push(assign("a", integer(i)));
        }
        chunk(statements)
    };
    let c = many(65536);
    let p = try_compile_chunk(&c).unwrap();
    assert_eq!(p.constants.len(), 65536);
    assert_eq!(
        p.opcodes[65536],
        OpCode::LoadConstant { dest: r(0), constant: ConstantIndex16(65535) }
    );
    assert_eq!(stops(&many(65537)), Halt::Error(CompilerError::Constants));
}

fn long_branch(n: usize) -> Chunk {
    let body = (0..n).map(|_| assign("a", simple(SimpleExpression::True))).collect();
    chunk(vec![
        local(&["a"], vec![]),
        Statement::If(IfStatement {
            if_part: (var("a"), block(body)),
            else_if_parts: vec![],
            else_part: None,
        }),
    ])
}

#[test]
fn a_jump_reaches_32767_instructions() {
    let c = long_branch(32766);
    let p = try_compile_chunk(&c).unwrap();
    assert_eq!(p.opcodes[2], OpCode::Jump { offset: 32767 });
    assert_eq!(stops(&long_branch(32767)), Halt::Error(CompilerError::OpCodes));
}

#[test]
fn constants_behind_the_256th_are_loaded() {
    let mut statements = vec![local(&["a"], vec![])];
    for i in 0..255 {
        statements.push(assign("a", integer(i)));
    }
    statements.push(assign("a", binary(var("a"), BinaryOperator::Add, integer(1000))));
    statements.push(assign("a", binary(var("a"), BinaryOperator::Add, integer(1001))));
    let c = chunk(statements);
    let p = try_compile_chunk(&c).unwrap();
    let first = OpCode::Simple {
        op: SimpleBinOp::Add,
        dest: r(1),
        left: RegisterOrConstant::Register(r(0)),
        right: RegisterOrConstant::Constant(ConstantIndex8(255)),
    };
    let second = OpCode::Simple {
        op: SimpleBinOp::Add,
        dest: r(1),
        left: RegisterOrConstant::Register(r(0)),
        right: RegisterOrConstant::Register(r(1)),
    };
    assert_eq!(
        p.opcodes[256..],
        [
            first,
            OpCode::Move { dest: r(0), source: r(1) },
            OpCode::LoadConstant { dest: r(1), constant: ConstantIndex16(256) },
            second,
            OpCode::Move { dest: r(0), source: r(1) },
            end(),
        ]
    );
}

#[test]
fn a_run_of_nils_has_at_most_255_registers() {
    let many = |n: usize| {
        chunk(vec![Statement::LocalStatement(LocalStatement {
            names: names("v", n),
            values: vec![],
        })])
    };
    let nils = |dest: u8, count: u8| OpCode::LoadNil { dest: r(dest), count };
    let c = many(255);
    let p = try_compile_chunk(&c).unwrap();
    assert_eq!(p.opcodes, vec![nils(0, 255), end()]);
    let c = many(256);
    let p = try_compile_chunk(&c).unwrap();
    assert_eq!(p.opcodes, vec![nils(0, 255), nils(255, 1), end()]);
    assert_eq!(p.stack_size, 256);
    assert_eq!(stops(&many(257)), Halt::Error(CompilerError::Registers));
}

#[test]
fn nothing_goes_on_behind_the_last_register() {
    let mut c = local_tables(255);
    c.block.statements.push(local(&["last"], vec![]));
    c.block.statements.push(assign("v0", nil()));
    let p = try_compile_chunk(&c).unwrap();
    assert_eq!(
        p.opcodes[255..],
        [
            OpCode::LoadNil { dest: r(255), count: 1 },
            OpCode::LoadNil { dest: r(0), count: 1 },
            end(),
        ]
    );
}

#[test]
fn statements_that_are_not_supported() {
    let empty = || block(vec![]);
    let statements = vec![
        (
            Statement::While(WhileStatement { condition: nil(), block: empty() }),
            Feature::While,
            "while statement unsupported",
        ),
        (
            Statement::For(ForStatement::Numeric {
                name: bytes("i"),
                initial: integer(1),
                limit: integer(2),
                step: None,
                body: empty(),
            }),
            Feature::For,
            "for statement unsupported",
        ),
        (
            Statement::For(ForStatement::Generic {
                names: vec![bytes("k")],
                arguments: vec![nil()],
                body: empty(),
            }),
            Feature::For,
            "for statement unsupported",
        ),
        (
            Statement::Repeat(RepeatStatement { body: empty(), until: nil() }),
            Feature::Repeat,
            "repeat statement unsupported",
        ),
        (
            Statement::Label(LabelStatement { name: bytes("l") }),
            Feature::Label,
            "label statement unsupported",
        ),
        (Statement::Break, Feature::Break, "break statement unsupported"),
        (
            Statement::Goto(GotoStatement { name: bytes("l") }),
            Feature::Goto,
            "goto statement unsupported",
        ),
    ];
    for (statement, feature, message) in statements {
        assert_eq!(stops(&in_function(statement)), Halt::Unsupported(feature));
        assert_eq!(feature.message(), message);
    }
}

#[test]
fn function_names_that_are_not_supported() {
    let with_field = || FunctionName {
        name: bytes("t"),
        fields: vec![bytes("f")],
        method: None,
    };
    let with_method = || FunctionName {
        name: bytes("t"),
        fields: vec![],
        method: Some(bytes("m")),
    };
    let definition = || function(&[], block(vec![]));
    let both = || FunctionName {
        name: bytes("t"),
        fields: vec![bytes("f")],
        method: Some(bytes("m")),
    };
    let names = || {
        [
            (with_field(), Feature::FunctionNameFields),
            (with_method(), Feature::FunctionNameMethod),
            (both(), Feature::FunctionNameFields),
        ]
    };
    for (name, feature) in names() {
        let s = Statement::Function(FunctionStatement { name, definition: definition() });
        assert_eq!(stops(&chunk(vec![s])), Halt::Unsupported(feature));
    }
    for (name, feature) in names() {
        let s = Statement::LocalFunction(FunctionStatement { name, definition: definition() });
        assert_eq!(stops(&chunk(vec![s])), Halt::Unsupported(feature));
    }
    assert_eq!(Feature::FunctionNameFields.message(), "no function name fields support");
    assert_eq!(Feature::FunctionNameMethod.message(), "no method support");
}

#[test]
fn expressions_that_are_not_supported() {
    let method = || CallSuffix::Method(bytes("m"), vec![]);
    let fields = |f: ConstructorField| {
        simple(SimpleExpression::TableConstructor(TableConstructor { fields: vec![f] }))
    };
    let expressions = vec![
        (simple(SimpleExpression::VarArgs), Feature::VarArgs),
        (fields(ConstructorField::Array(nil())), Feature::TableFields),
        (
            fields(ConstructorField::Record(RecordKey::Named(bytes("k")), nil())),
            Feature::TableFields,
        ),
        (
            fields(ConstructorField::Record(RecordKey::Indexed(nil()), nil())),
            Feature::TableFields,
        ),
        (
            simple(SimpleExpression::Suffixed(suffixed("t", vec![SuffixPart::Call(method())]))),
            Feature::MethodCallExpression,
        ),
        (binary(nil(), BinaryOperator::Concat, nil()), Feature::Concat),
    ];
    for (e, feature) in expressions {
        assert_eq!(stops(&chunk(vec![assign("x", e)])), Halt::Unsupported(feature));
    }
    assert_eq!(Feature::VarArgs.message(), "varargs expression unsupported");
    assert_eq!(Feature::TableFields.message(), "only empty table constructors supported");
    assert_eq!(Feature::MethodCallExpression.message(), "methods not supported yet");
    assert_eq!(Feature::Concat.message(), "no support for concat operator");
    let s = Statement::FunctionCall(FunctionCallStatement {
        head: suffixed("t", vec![]),
        call: method(),
    });
    assert_eq!(
        stops(&chunk(vec![s])),
        Halt::Unsupported(Feature::MethodCallStatement)
    );
    assert_eq!(Feature::MethodCallStatement.message(), "method call unsupported");
}

#[test]
fn the_first_reason_to_stop_counts() {
    let mut c = local_tables(257);
    c.block.statements.push(Statement::Break);
    assert_eq!(stops(&c), Halt::Error(CompilerError::Registers));
    let mut c = local_tables(257);
    c.block.statements.insert(0, Statement::Break);
    assert_eq!(stops(&c), Halt::Unsupported(Feature::Break));
}

#[test]
fn values_without_targets_are_left_out() {
    let c = chunk(vec![Statement::Assignment(AssignmentStatement {
        targets: vec![AssignmentTarget::Name(bytes("x"))],
        values: vec![integer(1), simple(SimpleExpression::VarArgs)],
    })]);
    let p = compile_chunk(&c).unwrap();
    assert_eq!(p.opcodes.len(), 2);
    let c = chunk(vec![assign("x", integer(1))]);
    assert_eq!(p, compile_chunk(&c).unwrap());
}
