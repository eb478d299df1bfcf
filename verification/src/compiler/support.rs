//! Which parts of the language the compiler knows.

use crate::compiler::model::Desc;
use crate::parser::{
    AssignmentTarget, BinaryOperator, Block, CallSuffix, Chunk, Expression, FieldSuffix,
    FunctionDefinition, FunctionStatement, HeadExpression, PrimaryExpression, SimpleExpression,
    Statement, SuffixPart, SuffixedExpression,
};
use vstd::prelude::*;

verus! {

/// A chunk without loops, labels and jumps to them, methods, variable arguments, table
/// constructors with fields, the concatenation operator, and functions that are stored in
/// fields.
pub open spec fn chunk_supported(chunk: Chunk) -> bool {
    block_supported(chunk.block)
}

pub open spec fn block_supported(block: Block) -> bool
    decreases block, 0int,
{
    statements_supported(block.statements@, 0) && match block.return_statement {
        Some(r) => expressions_supported(r.returns@, 0),
        None => true,
    }
}

pub open spec fn statements_supported(statements: Seq<Statement>, i: int) -> bool
    decreases statements, statements.len() - i,
{
    0 <= i < statements.len() ==> statement_supported(statements[i]) && statements_supported(
        statements,
        i + 1,
    )
}

pub open spec fn statement_supported(statement: Statement) -> bool
    decreases statement, 0int,
{
    match statement {
        Statement::If(s) => expression_supported(s.if_part.0) && block_supported(s.if_part.1)
            && arms_supported(s.else_if_parts@, 0) && match s.else_part {
            Some(b) => block_supported(b),
            None => true,
        },
        Statement::Do(b) => block_supported(b),
        Statement::Function(f) => function_statement_supported(f),
        Statement::LocalFunction(f) => function_statement_supported(f),
        Statement::LocalStatement(l) => expressions_supported(l.values@, 0),
        Statement::FunctionCall(c) => suffixed_supported(c.head) && call_supported(c.call),
        Statement::Assignment(a) => targets_supported(a.targets@, 0) && first_supported(
            a.values@,
            0,
            a.targets@.len() as int,
        ),
        _ => false,
    }
}

pub open spec fn function_statement_supported(f: FunctionStatement) -> bool
    decreases f, 0int,
{
    f.name.fields@.len() == 0 && f.name.method is None && definition_supported(f.definition)
}

pub open spec fn arms_supported(arms: Seq<(Expression, Block)>, i: int) -> bool
    decreases arms, arms.len() - i,
{
    0 <= i < arms.len() ==> expression_supported(arms[i].0) && block_supported(arms[i].1)
        && arms_supported(arms, i + 1)
}

pub open spec fn targets_supported(targets: Seq<AssignmentTarget>, i: int) -> bool
    decreases targets, targets.len() - i,
{
    0 <= i < targets.len() ==> target_supported(targets[i]) && targets_supported(targets, i + 1)
}

pub open spec fn target_supported(target: AssignmentTarget) -> bool
    decreases target, 0int,
{
    match target {
        AssignmentTarget::Name(_) => true,
        AssignmentTarget::Field(table, field) => suffixed_supported(table) && field_supported(
            field,
        ),
    }
}

pub open spec fn definition_supported(definition: FunctionDefinition) -> bool
    decreases definition, 0int,
{
    block_supported(definition.body)
}

pub open spec fn expressions_supported(expressions: Seq<Expression>, i: int) -> bool
    decreases expressions, expressions.len() - i,
{
    0 <= i < expressions.len() ==> expression_supported(expressions[i]) && expressions_supported(
        expressions,
        i + 1,
    )
}

/// As `expressions_supported`, for those before the `n`th alone: values for which there is no
/// target are left out.
pub open spec fn first_supported(expressions: Seq<Expression>, i: int, n: int) -> bool
    decreases expressions, expressions.len() - i,
{
    0 <= i < expressions.len() && i < n ==> expression_supported(expressions[i])
        && first_supported(expressions, i + 1, n)
}

pub open spec fn expression_supported(expression: Expression) -> bool
    decreases expression, 0int,
{
    head_supported(*expression.head) && tail_supported(expression.tail@, 0)
}

pub open spec fn tail_supported(tail: Seq<(BinaryOperator, Expression)>, i: int) -> bool
    decreases tail, tail.len() - i,
{
    0 <= i < tail.len() ==> tail[i].0 != BinaryOperator::Concat && expression_supported(tail[i].1)
        && tail_supported(tail, i + 1)
}

pub open spec fn head_supported(head: HeadExpression) -> bool
    decreases head, 0int,
{
    match head {
        HeadExpression::Simple(s) => simple_supported(s),
        HeadExpression::UnaryOperator(_, e) => expression_supported(e),
    }
}

pub open spec fn simple_supported(simple: SimpleExpression) -> bool
    decreases simple, 0int,
{
    match simple {
        SimpleExpression::VarArgs => false,
        SimpleExpression::TableConstructor(t) => t.fields@.len() == 0,
        SimpleExpression::Function(f) => definition_supported(f),
        SimpleExpression::Suffixed(s) => suffixed_supported(s),
        _ => true,
    }
}

pub open spec fn suffixed_supported(suffixed: SuffixedExpression) -> bool
    decreases suffixed, 0int,
{
    primary_supported(suffixed.primary) && suffixes_supported(suffixed.suffixes@, 0)
}

pub open spec fn suffixes_supported(suffixes: Seq<SuffixPart>, i: int) -> bool
    decreases suffixes, suffixes.len() - i,
{
    0 <= i < suffixes.len() ==> suffix_supported(suffixes[i]) && suffixes_supported(suffixes, i + 1)
}

pub open spec fn suffix_supported(suffix: SuffixPart) -> bool
    decreases suffix, 0int,
{
    match suffix {
        SuffixPart::Field(f) => field_supported(f),
        SuffixPart::Call(c) => call_supported(c),
    }
}

pub open spec fn primary_supported(primary: PrimaryExpression) -> bool
    decreases primary, 0int,
{
    match primary {
        PrimaryExpression::Name(_) => true,
        PrimaryExpression::GroupedExpression(e) => expression_supported(e),
    }
}

pub open spec fn field_supported(field: FieldSuffix) -> bool
    decreases field, 0int,
{
    match field {
        FieldSuffix::Named(_) => true,
        FieldSuffix::Indexed(e) => expression_supported(e),
    }
}

pub open spec fn call_supported(call: CallSuffix) -> bool
    decreases call, 0int,
{
    match call {
        CallSuffix::Function(args) => expressions_supported(args@, 0),
        CallSuffix::Method(_, _) => false,
    }
}

/// Whether the expressions that a descriptor puts off are supported.
pub open spec fn desc_supported(desc: Desc) -> bool
    decreases desc, 0int,
{
    match desc {
        Desc::Register { .. } => true,
        Desc::UpValue(_) => true,
        Desc::Value(_) => true,
        Desc::Not(d) => desc_supported(*d),
        Desc::FunctionCall { func, args } => desc_supported(*func) && descs_supported(args, 0),
        Desc::Comparison { left, op: _, right } => desc_supported(*left) && desc_supported(*right),
        Desc::ShortCircuitBinOp { left, op: _, right } => desc_supported(*left)
            && expression_supported(right),
    }
}

pub open spec fn descs_supported(descs: Seq<Desc>, i: int) -> bool
    decreases descs, descs.len() - i,
{
    0 <= i < descs.len() ==> desc_supported(descs[i]) && descs_supported(descs, i + 1)
}

} // verus!
