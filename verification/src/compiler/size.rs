//! Sizes of syntax trees and of expression descriptors. They bound how deep the compiler
//! recurses: it descends into smaller parts only.

use crate::compiler::model::Desc;
use crate::parser::{
    AssignmentTarget, BinaryOperator, Block, CallSuffix, Expression, FieldSuffix,
    FunctionDefinition, HeadExpression, PrimaryExpression, SimpleExpression, Statement, SuffixPart,
    SuffixedExpression,
};
use vstd::prelude::*;

verus! {

pub open spec fn block_size(block: Block) -> nat
    decreases block, 0int,
{
    8 + statements_size(block.statements@, 0) + match block.return_statement {
        Some(r) => expressions_size(r.returns@, 0),
        None => 0,
    }
}

pub open spec fn statements_size(statements: Seq<Statement>, i: int) -> nat
    decreases statements, statements.len() - i,
{
    if 0 <= i < statements.len() {
        1 + statement_size(statements[i]) + statements_size(statements, i + 1)
    } else {
        0
    }
}

pub open spec fn statement_size(statement: Statement) -> nat
    decreases statement, 0int,
{
    match statement {
        Statement::If(s) => 8 + expression_size(s.if_part.0) + block_size(s.if_part.1) + arms_size(
            s.else_if_parts@,
            0,
        ) + match s.else_part {
            Some(b) => block_size(b),
            None => 0,
        },
        Statement::Do(b) => 8 + block_size(b),
        Statement::Function(f) => 16 + definition_size(f.definition),
        Statement::LocalFunction(f) => 16 + definition_size(f.definition),
        Statement::LocalStatement(l) => 8 + l.names@.len() + expressions_size(l.values@, 0),
        Statement::FunctionCall(c) => 8 + suffixed_size(c.head) + call_size(c.call),
        Statement::Assignment(a) => 8 + targets_size(a.targets@, 0) + expressions_size(
            a.values@,
            0,
        ),
        _ => 8,
    }
}

pub open spec fn arms_size(arms: Seq<(Expression, Block)>, i: int) -> nat
    decreases arms, arms.len() - i,
{
    if 0 <= i < arms.len() {
        1 + expression_size(arms[i].0) + block_size(arms[i].1) + arms_size(arms, i + 1)
    } else {
        0
    }
}

pub open spec fn targets_size(targets: Seq<AssignmentTarget>, i: int) -> nat
    decreases targets, targets.len() - i,
{
    if 0 <= i < targets.len() {
        16 + target_size(targets[i]) + targets_size(targets, i + 1)
    } else {
        0
    }
}

pub open spec fn target_size(target: AssignmentTarget) -> nat
    decreases target, 0int,
{
    match target {
        AssignmentTarget::Name(_) => 8,
        AssignmentTarget::Field(table, field) => 8 + suffixed_size(table) + field_size(field),
    }
}

pub open spec fn definition_size(definition: FunctionDefinition) -> nat
    decreases definition, 0int,
{
    8 + definition.parameters@.len() + block_size(definition.body)
}

pub open spec fn expressions_size(expressions: Seq<Expression>, i: int) -> nat
    decreases expressions, expressions.len() - i,
{
    if 0 <= i < expressions.len() {
        1 + expression_size(expressions[i]) + expressions_size(expressions, i + 1)
    } else {
        0
    }
}

pub open spec fn expression_size(expression: Expression) -> nat
    decreases expression, 0int,
{
    8 + head_size(*expression.head) + tail_size(expression.tail@, 0)
}

pub open spec fn tail_size(tail: Seq<(BinaryOperator, Expression)>, i: int) -> nat
    decreases tail, tail.len() - i,
{
    if 0 <= i < tail.len() {
        8 + expression_size(tail[i].1) + tail_size(tail, i + 1)
    } else {
        0
    }
}

pub open spec fn head_size(head: HeadExpression) -> nat
    decreases head, 0int,
{
    match head {
        HeadExpression::Simple(s) => 8 + simple_size(s),
        HeadExpression::UnaryOperator(_, e) => 8 + expression_size(e),
    }
}

pub open spec fn simple_size(simple: SimpleExpression) -> nat
    decreases simple, 0int,
{
    match simple {
        SimpleExpression::Function(f) => 8 + definition_size(f),
        SimpleExpression::Suffixed(s) => 8 + suffixed_size(s),
        _ => 8,
    }
}

pub open spec fn suffixed_size(suffixed: SuffixedExpression) -> nat
    decreases suffixed, 0int,
{
    8 + primary_size(suffixed.primary) + suffixes_size(suffixed.suffixes@, 0)
}

pub open spec fn suffixes_size(suffixes: Seq<SuffixPart>, i: int) -> nat
    decreases suffixes, suffixes.len() - i,
{
    if 0 <= i < suffixes.len() {
        8 + suffix_size(suffixes[i]) + suffixes_size(suffixes, i + 1)
    } else {
        0
    }
}

pub open spec fn suffix_size(suffix: SuffixPart) -> nat
    decreases suffix, 0int,
{
    match suffix {
        SuffixPart::Field(f) => 8 + field_size(f),
        SuffixPart::Call(c) => 8 + call_size(c),
    }
}

pub open spec fn primary_size(primary: PrimaryExpression) -> nat
    decreases primary, 0int,
{
    match primary {
        PrimaryExpression::Name(_) => 8,
        PrimaryExpression::GroupedExpression(e) => 8 + expression_size(e),
    }
}

pub open spec fn field_size(field: FieldSuffix) -> nat
    decreases field, 0int,
{
    match field {
        FieldSuffix::Named(_) => 8,
        FieldSuffix::Indexed(e) => 8 + expression_size(e),
    }
}

pub open spec fn call_size(call: CallSuffix) -> nat
    decreases call, 0int,
{
    match call {
        CallSuffix::Function(args) => 8 + expressions_size(args@, 0),
        CallSuffix::Method(_, args) => 8 + expressions_size(args@, 0),
    }
}

/// The size of an expression descriptor, with that of the expression that it puts off.
pub open spec fn weight(desc: Desc) -> nat
    decreases desc, 0int,
{
    match desc {
        Desc::Register { .. } => 1,
        Desc::UpValue(_) => 1,
        Desc::Value(_) => 1,
        Desc::Not(d) => 1 + weight(*d),
        Desc::FunctionCall { func, args } => 1 + weight(*func) + weights(args, 0),
        Desc::Comparison { left, op: _, right } => 1 + weight(*left) + weight(*right),
        Desc::ShortCircuitBinOp { left, op: _, right } => 1 + weight(*left) + expression_size(
            right,
        ),
    }
}

/// The size of all descriptors from the `i`th on.
pub open spec fn weights(descs: Seq<Desc>, i: int) -> nat
    decreases descs, descs.len() - i,
{
    if 0 <= i < descs.len() {
        weight(descs[i]) + weights(descs, i + 1)
    } else {
        0
    }
}

/// Each descriptor of a list is at most as large as what is left of the list before it.
pub proof fn lemma_weights_index(descs: Seq<Desc>, i: int, k: int)
    requires
        0 <= i <= k < descs.len(),
    ensures
        weight(descs[k]) <= weights(descs, i),
    decreases k - i,
{
    if i < k {
        lemma_weights_index(descs, i + 1, k);
    }
}

/// A list has at most as many descriptors as its size.
pub proof fn lemma_weights_len(descs: Seq<Desc>, i: int)
    requires
        0 <= i <= descs.len(),
    ensures
        descs.len() - i <= weights(descs, i),
    decreases descs.len() - i,
{
    if i < descs.len() {
        assert(weight(descs[i]) >= 1);
        lemma_weights_len(descs, i + 1);
    }
}

/// A list has at most as many expressions as its size.
pub proof fn lemma_expressions_len(expressions: Seq<Expression>, i: int)
    requires
        0 <= i <= expressions.len(),
    ensures
        expressions.len() - i <= expressions_size(expressions, i),
    decreases expressions.len() - i,
{
    if i < expressions.len() {
        lemma_expressions_len(expressions, i + 1);
    }
}

/// Each expression of a list is at most as large as what is left of the list before it.
pub proof fn lemma_expressions_index(expressions: Seq<Expression>, i: int, k: int)
    requires
        0 <= i <= k < expressions.len(),
    ensures
        expression_size(expressions[k]) <= expressions_size(expressions, i),
    decreases k - i,
{
    if i < k {
        lemma_expressions_index(expressions, i + 1, k);
    }
}

/// A list with one more descriptor is larger by that descriptor.
pub proof fn lemma_weights_push(descs: Seq<Desc>, d: Desc, i: int)
    requires
        0 <= i <= descs.len(),
    ensures
        weights(descs.push(d), i) == weights(descs, i) + weight(d),
    decreases descs.len() - i,
{
    if i < descs.len() {
        lemma_weights_push(descs, d, i + 1);
    } else {
        assert(weights(descs.push(d), i + 1) == 0);
    }
}

} // verus!
