//! Why a chunk is not compiled.

use vstd::prelude::*;

verus! {

/// A limit of the machine that a chunk exceeds.
#[derive(Debug, Clone, Copy, PartialEq, Eq, Structural)]
pub enum CompilerError {
    Registers,
    UpValues,
    Returns,
    FixedParameters,
    Functions,
    Constants,
    OpCodes,
}

impl CompilerError {
    /// The message of an error.
    pub open spec fn text(self) -> Seq<char> {
        match self {
            CompilerError::Registers => "insufficient available registers"@,
            CompilerError::UpValues => "too many upvalues"@,
            CompilerError::Returns => "too many returns"@,
            CompilerError::FixedParameters => "too many fixed parameters"@,
            CompilerError::Functions => "too many inner functions"@,
            CompilerError::Constants => "too many constants"@,
            CompilerError::OpCodes => "too many opcodes"@,
        }
    }

    pub fn message(self) -> (message: &'static str)
        ensures
            message@ == self.text(),
    {
        match self {
            CompilerError::Registers => "insufficient available registers",
            CompilerError::UpValues => "too many upvalues",
            CompilerError::Returns => "too many returns",
            CompilerError::FixedParameters => "too many fixed parameters",
            CompilerError::Functions => "too many inner functions",
            CompilerError::Constants => "too many constants",
            CompilerError::OpCodes => "too many opcodes",
        }
    }
}

/// A part of the language that the compiler does not know.
#[derive(Debug, Clone, Copy, PartialEq, Eq, Structural)]
pub enum Feature {
    While,
    For,
    Repeat,
    Label,
    Break,
    Goto,
    /// A function that is stored in a field.
    FunctionNameFields,
    /// A function that is stored as a method.
    FunctionNameMethod,
    /// A call of a method as a statement.
    MethodCallStatement,
    /// A call of a method in an expression.
    MethodCallExpression,
    VarArgs,
    /// A table constructor with fields.
    TableFields,
    Concat,
}

impl Feature {
    /// What is said of a chunk that uses the feature.
    pub open spec fn text(self) -> Seq<char> {
        match self {
            Feature::While => "while statement unsupported"@,
            Feature::For => "for statement unsupported"@,
            Feature::Repeat => "repeat statement unsupported"@,
            Feature::Label => "label statement unsupported"@,
            Feature::Break => "break statement unsupported"@,
            Feature::Goto => "goto statement unsupported"@,
            Feature::FunctionNameFields => "no function name fields support"@,
            Feature::FunctionNameMethod => "no method support"@,
            Feature::MethodCallStatement => "method call unsupported"@,
            Feature::MethodCallExpression => "methods not supported yet"@,
            Feature::VarArgs => "varargs expression unsupported"@,
            Feature::TableFields => "only empty table constructors supported"@,
            Feature::Concat => "no support for concat operator"@,
        }
    }

    pub fn message(self) -> (message: &'static str)
        ensures
            message@ == self.text(),
    {
        match self {
            Feature::While => "while statement unsupported",
            Feature::For => "for statement unsupported",
            Feature::Repeat => "repeat statement unsupported",
            Feature::Label => "label statement unsupported",
            Feature::Break => "break statement unsupported",
            Feature::Goto => "goto statement unsupported",
            Feature::FunctionNameFields => "no function name fields support",
            Feature::FunctionNameMethod => "no method support",
            Feature::MethodCallStatement => "method call unsupported",
            Feature::MethodCallExpression => "methods not supported yet",
            Feature::VarArgs => "varargs expression unsupported",
            Feature::TableFields => "only empty table constructors supported",
            Feature::Concat => "no support for concat operator",
        }
    }
}

/// Why compilation stops without a result.
#[derive(Debug, Clone, Copy, PartialEq, Eq, Structural)]
pub enum Halt {
    /// A limit is exceeded.
    Error(CompilerError),
    /// The chunk uses a part of the language that the compiler does not know.
    Unsupported(Feature),
}

} // verus!
