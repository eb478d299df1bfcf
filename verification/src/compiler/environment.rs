//! Which parts of a chunk refer to its environment.

use crate::compiler::model::{env_name, Desc};
use crate::parser::{
    AssignmentTarget, BinaryOperator, Block, CallSuffix, Chunk, Expression, FieldSuffix,
    FunctionDefinition, HeadExpression, PrimaryExpression, SimpleExpression, Statement, SuffixPart,
    SuffixedExpression,
};
use vstd::prelude::*;

verus! {

/// The names of the local variables in scope.
pub type Scope = Set<Seq<u8>>;

/// Whether a chunk refers to its environment: it names the environment, or a variable that is a
/// field of it, where no local variable takes the place of either. Values that an assignment has
/// no target for do not count.
pub open spec fn chunk_uses(chunk: Chunk) -> bool {
    block_uses(Set::empty(), chunk.block)
}

/// Whether a name refers to the environment of the chunk. It does so where it is that of the
/// environment itself or of no local variable, unless the environment in scope is a local one.
pub open spec fn name_uses(scope: Scope, name: Seq<u8>) -> bool {
    !scope.contains(env_name()) && !scope.contains(name)
}

/// The scope behind the declaration of the first `n` of these names.
pub open spec fn declared(scope: Scope, names: Seq<Box<[u8]>>, n: int) -> Scope
    decreases n,
{
    if 0 < n <= names.len() {
        declared(scope, names, n - 1).insert(names[n - 1]@)
    } else {
        scope
    }
}

/// The scope behind a statement.
pub open spec fn scope_behind(scope: Scope, statement: Statement) -> Scope {
    match statement {
        Statement::LocalFunction(f) => scope.insert(f.name.name@),
        Statement::LocalStatement(l) => declared(scope, l.names@, l.names@.len() as int),
        _ => scope,
    }
}

/// The scope behind the statements from the `i`th on.
pub open spec fn scope_at_end(scope: Scope, statements: Seq<Statement>, i: int) -> Scope
    decreases statements.len() - i,
{
    if 0 <= i < statements.len() {
        scope_at_end(scope_behind(scope, statements[i]), statements, i + 1)
    } else {
        scope
    }
}

pub open spec fn block_uses(scope: Scope, block: Block) -> bool
    decreases block, 0int,
{
    statements_use(scope, block.statements@, 0) || match block.return_statement {
        Some(r) => expressions_use(
            scope_at_end(scope, block.statements@, 0),
            r.returns@,
            0,
        ),
        None => false,
    }
}

pub open spec fn statements_use(scope: Scope, statements: Seq<Statement>, i: int) -> bool
    decreases statements, statements.len() - i,
{
    0 <= i < statements.len() && (statement_uses(scope, statements[i]) || statements_use(
        scope_behind(scope, statements[i]),
        statements,
        i + 1,
    ))
}

pub open spec fn statement_uses(scope: Scope, statement: Statement) -> bool
    decreases statement, 0int,
{
    match statement {
        Statement::If(s) => {
            ||| expression_uses(scope, s.if_part.0)
            ||| block_uses(scope, s.if_part.1)
            ||| arms_use(scope, s.else_if_parts@, 0)
            ||| match s.else_part {
                Some(b) => block_uses(scope, b),
                None => false,
            }
        },
        Statement::Do(b) => block_uses(scope, b),
        // Such a function is stored in the environment, whatever the locals are.
        Statement::Function(f) => definition_uses(scope, f.definition) || name_uses(
            scope,
            env_name(),
        ),
        Statement::LocalFunction(f) => definition_uses(scope, f.definition),
        Statement::LocalStatement(l) => local_values_use(scope, l.names@, l.values@, 0),
        Statement::FunctionCall(c) => suffixed_uses(scope, c.head) || call_uses(scope, c.call),
        Statement::Assignment(a) => targets_use(scope, a.targets@, 0) || first_use(
            scope,
            a.values@,
            0,
            a.targets@.len() as int,
        ),
        _ => false,
    }
}

pub open spec fn arms_use(scope: Scope, arms: Seq<(Expression, Block)>, i: int) -> bool
    decreases arms, arms.len() - i,
{
    0 <= i < arms.len() && (expression_uses(scope, arms[i].0) || block_uses(scope, arms[i].1)
        || arms_use(scope, arms, i + 1))
}

/// The values from the `i`th on. Each name is in scope behind its own value.
pub open spec fn local_values_use(
    scope: Scope,
    names: Seq<Box<[u8]>>,
    values: Seq<Expression>,
    i: int,
) -> bool
    decreases values, values.len() - i,
{
    0 <= i < values.len() && (expression_uses(
        declared(scope, names, if i < names.len() { i } else { names.len() as int }),
        values[i],
    ) || local_values_use(scope, names, values, i + 1))
}

pub open spec fn targets_use(scope: Scope, targets: Seq<AssignmentTarget>, i: int) -> bool
    decreases targets, targets.len() - i,
{
    0 <= i < targets.len() && (target_uses(scope, targets[i]) || targets_use(scope, targets, i + 1))
}

pub open spec fn target_uses(scope: Scope, target: AssignmentTarget) -> bool
    decreases target, 0int,
{
    match target {
        AssignmentTarget::Name(name) => name_uses(scope, name@),
        AssignmentTarget::Field(table, field) => suffixed_uses(scope, table) || field_uses(
            scope,
            field,
        ),
    }
}

pub open spec fn definition_uses(scope: Scope, definition: FunctionDefinition) -> bool
    decreases definition, 0int,
{
    block_uses(
        declared(scope, definition.parameters@, definition.parameters@.len() as int),
        definition.body,
    )
}

pub open spec fn expressions_use(scope: Scope, expressions: Seq<Expression>, i: int) -> bool
    decreases expressions, expressions.len() - i,
{
    0 <= i < expressions.len() && (expression_uses(scope, expressions[i]) || expressions_use(
        scope,
        expressions,
        i + 1,
    ))
}

/// As `expressions_use`, for those before the `n`th alone.
pub open spec fn first_use(scope: Scope, expressions: Seq<Expression>, i: int, n: int) -> bool
    decreases expressions, expressions.len() - i,
{
    0 <= i < expressions.len() && i < n && (expression_uses(scope, expressions[i]) || first_use(
        scope,
        expressions,
        i + 1,
        n,
    ))
}

pub open spec fn expression_uses(scope: Scope, expression: Expression) -> bool
    decreases expression, 0int,
{
    head_uses(scope, *expression.head) || tail_uses(scope, expression.tail@, 0)
}

pub open spec fn tail_uses(scope: Scope, tail: Seq<(BinaryOperator, Expression)>, i: int) -> bool
    decreases tail, tail.len() - i,
{
    0 <= i < tail.len() && (expression_uses(scope, tail[i].1) || tail_uses(scope, tail, i + 1))
}

pub open spec fn head_uses(scope: Scope, head: HeadExpression) -> bool
    decreases head, 0int,
{
    match head {
        HeadExpression::Simple(s) => simple_uses(scope, s),
        HeadExpression::UnaryOperator(_, e) => expression_uses(scope, e),
    }
}

pub open spec fn simple_uses(scope: Scope, simple: SimpleExpression) -> bool
    decreases simple, 0int,
{
    match simple {
        SimpleExpression::Function(f) => definition_uses(scope, f),
        SimpleExpression::Suffixed(s) => suffixed_uses(scope, s),
        _ => false,
    }
}

pub open spec fn suffixed_uses(scope: Scope, suffixed: SuffixedExpression) -> bool
    decreases suffixed, 0int,
{
    primary_uses(scope, suffixed.primary) || suffixes_use(scope, suffixed.suffixes@, 0)
}

pub open spec fn suffixes_use(scope: Scope, suffixes: Seq<SuffixPart>, i: int) -> bool
    decreases suffixes, suffixes.len() - i,
{
    0 <= i < suffixes.len() && (suffix_uses(scope, suffixes[i]) || suffixes_use(
        scope,
        suffixes,
        i + 1,
    ))
}

pub open spec fn suffix_uses(scope: Scope, suffix: SuffixPart) -> bool
    decreases suffix, 0int,
{
    match suffix {
        SuffixPart::Field(f) => field_uses(scope, f),
        SuffixPart::Call(c) => call_uses(scope, c),
    }
}

pub open spec fn primary_uses(scope: Scope, primary: PrimaryExpression) -> bool
    decreases primary, 0int,
{
    match primary {
        PrimaryExpression::Name(name) => name_uses(scope, name@),
        PrimaryExpression::GroupedExpression(e) => expression_uses(scope, e),
    }
}

pub open spec fn field_uses(scope: Scope, field: FieldSuffix) -> bool
    decreases field, 0int,
{
    match field {
        FieldSuffix::Named(_) => false,
        FieldSuffix::Indexed(e) => expression_uses(scope, e),
    }
}

pub open spec fn call_uses(scope: Scope, call: CallSuffix) -> bool
    decreases call, 0int,
{
    match call {
        CallSuffix::Function(args) => expressions_use(scope, args@, 0),
        CallSuffix::Method(_, args) => expressions_use(scope, args@, 0),
    }
}

/// Whether the expressions that a descriptor puts off refer to the environment.
pub open spec fn desc_uses(scope: Scope, desc: Desc) -> bool
    decreases desc, 0int,
{
    match desc {
        Desc::Register { .. } => false,
        Desc::UpValue(_) => false,
        Desc::Value(_) => false,
        Desc::Not(d) => desc_uses(scope, *d),
        Desc::FunctionCall { func, args } => desc_uses(scope, *func) || descs_use(scope, args, 0),
        Desc::Comparison { left, op: _, right } => desc_uses(scope, *left) || desc_uses(
            scope,
            *right,
        ),
        Desc::ShortCircuitBinOp { left, op: _, right } => desc_uses(scope, *left)
            || expression_uses(scope, right),
    }
}

pub open spec fn descs_use(scope: Scope, descs: Seq<Desc>, i: int) -> bool
    decreases descs, descs.len() - i,
{
    0 <= i < descs.len() && (desc_uses(scope, descs[i]) || descs_use(scope, descs, i + 1))
}

} // verus!
