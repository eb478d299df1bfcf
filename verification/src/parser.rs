//! The syntax tree of a chunk, as a parser hands it to the compiler.

use vstd::prelude::*;

verus! {

/// A whole source file.
#[derive(Debug)]
pub struct Chunk {
    pub block: Block,
}

/// Statements that share one scope, ended by an optional `return`.
#[derive(Debug)]
pub struct Block {
    pub statements: Vec<Statement>,
    pub return_statement: Option<ReturnStatement>,
}

#[derive(Debug)]
pub enum Statement {
    If(IfStatement),
    While(WhileStatement),
    Do(Block),
    For(ForStatement),
    Repeat(RepeatStatement),
    Function(FunctionStatement),
    LocalFunction(FunctionStatement),
    LocalStatement(LocalStatement),
    Label(LabelStatement),
    Break,
    Goto(GotoStatement),
    FunctionCall(FunctionCallStatement),
    Assignment(AssignmentStatement),
}

#[derive(Debug)]
pub struct ReturnStatement {
    pub returns: Vec<Expression>,
}

#[derive(Debug)]
pub struct IfStatement {
    pub if_part: (Expression, Block),
    pub else_if_parts: Vec<(Expression, Block)>,
    pub else_part: Option<Block>,
}

#[derive(Debug)]
pub struct WhileStatement {
    pub condition: Expression,
    pub block: Block,
}

#[derive(Debug)]
pub enum ForStatement {
    Numeric {
        name: Box<[u8]>,
        initial: Expression,
        limit: Expression,
        step: Option<Expression>,
        body: Block,
    },
    Generic { names: Vec<Box<[u8]>>, arguments: Vec<Expression>, body: Block },
}

#[derive(Debug)]
pub struct RepeatStatement {
    pub body: Block,
    pub until: Expression,
}

#[derive(Debug)]
pub struct FunctionStatement {
    pub name: FunctionName,
    pub definition: FunctionDefinition,
}

/// `name.field.field:method`
#[derive(Debug)]
pub struct FunctionName {
    pub name: Box<[u8]>,
    pub fields: Vec<Box<[u8]>>,
    pub method: Option<Box<[u8]>>,
}

#[derive(Debug)]
pub struct LocalStatement {
    pub names: Vec<Box<[u8]>>,
    pub values: Vec<Expression>,
}

#[derive(Debug)]
pub struct LabelStatement {
    pub name: Box<[u8]>,
}

#[derive(Debug)]
pub struct GotoStatement {
    pub name: Box<[u8]>,
}

#[derive(Debug)]
pub struct FunctionCallStatement {
    pub head: SuffixedExpression,
    pub call: CallSuffix,
}

#[derive(Debug)]
pub struct AssignmentStatement {
    pub targets: Vec<AssignmentTarget>,
    pub values: Vec<Expression>,
}

#[derive(Debug)]
pub enum AssignmentTarget {
    Name(Box<[u8]>),
    Field(SuffixedExpression, FieldSuffix),
}

/// A head, then operators with their right operands, applied from left to right.
#[derive(Debug)]
pub struct Expression {
    pub head: Box<HeadExpression>,
    pub tail: Vec<(BinaryOperator, Expression)>,
}

#[derive(Debug)]
pub enum HeadExpression {
    Simple(SimpleExpression),
    UnaryOperator(UnaryOperator, Expression),
}

#[derive(Debug)]
pub enum SimpleExpression {
    /// A floating point literal, by its IEEE 754 double precision bits.
    Float(u64),
    Integer(i64),
    String(Box<[u8]>),
    Nil,
    True,
    False,
    VarArgs,
    TableConstructor(TableConstructor),
    Function(FunctionDefinition),
    Suffixed(SuffixedExpression),
}

#[derive(Debug)]
pub struct TableConstructor {
    pub fields: Vec<ConstructorField>,
}

#[derive(Debug)]
pub enum ConstructorField {
    Array(Expression),
    Record(RecordKey, Expression),
}

#[derive(Debug)]
pub enum RecordKey {
    Named(Box<[u8]>),
    Indexed(Expression),
}

#[derive(Debug)]
pub struct FunctionDefinition {
    pub parameters: Vec<Box<[u8]>>,
    pub has_varargs: bool,
    pub body: Block,
}

#[derive(Debug)]
pub struct SuffixedExpression {
    pub primary: PrimaryExpression,
    pub suffixes: Vec<SuffixPart>,
}

#[derive(Debug)]
pub enum PrimaryExpression {
    Name(Box<[u8]>),
    GroupedExpression(Expression),
}

#[derive(Debug)]
pub enum SuffixPart {
    Field(FieldSuffix),
    Call(CallSuffix),
}

#[derive(Debug)]
pub enum FieldSuffix {
    Named(Box<[u8]>),
    Indexed(Expression),
}

#[derive(Debug)]
pub enum CallSuffix {
    Function(Vec<Expression>),
    Method(Box<[u8]>, Vec<Expression>),
}

#[derive(Debug, Clone, Copy, PartialEq, Eq, Structural)]
pub enum UnaryOperator {
    Not,
    Minus,
    BitNot,
    Len,
}

#[derive(Debug, Clone, Copy, PartialEq, Eq, Structural)]
pub enum BinaryOperator {
    Add,
    Sub,
    Mul,
    Mod,
    Exp,
    Div,
    IDiv,
    BitAnd,
    BitOr,
    BitXor,
    ShiftLeft,
    ShiftRight,
    Concat,
    NotEqual,
    Equal,
    LessThan,
    LessEqual,
    GreaterThan,
    GreaterEqual,
    And,
    Or,
}

} // verus!
