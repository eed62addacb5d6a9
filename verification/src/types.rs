//! The data that the lexer, the parser and the error registry share.
use vstd::prelude::*;

verus! {

/// The kinds of runtime value a Hank script works with.
#[derive(Debug, PartialEq, Eq, Clone, Copy, Structural)]
pub enum ValueType {
    Void,
    Number,
    String,
    Array,
    Object,
    Opaque,
    Task,
    Error,
}

/// The name a value type is shown with in messages.
pub open spec fn value_type_label(t: ValueType) -> Seq<char> {
    match t {
        ValueType::Void => "Void"@,
        ValueType::Number => "Number"@,
        ValueType::String => "String"@,
        ValueType::Array => "Array"@,
        ValueType::Object => "Map"@,
        ValueType::Opaque => "Opaque"@,
        ValueType::Task => "Task"@,
        ValueType::Error => "Error"@,
    }
}

impl ValueType {
    /// The name this type is shown with in messages; an object shows as `Map`.
    pub fn name(self) -> (r: &'static str)
        ensures
            r@ == value_type_label(self),
    {
        match self {
            ValueType::Void => "Void",
            ValueType::Number => "Number",
            ValueType::String => "String",
            ValueType::Array => "Array",
            ValueType::Object => "Map",
            ValueType::Opaque => "Opaque",
            ValueType::Task => "Task",
            ValueType::Error => "Error",
        }
    }
}

/// The error codes of the language, grouped by phase: lexical (10xx),
/// syntax (20xx), resolution (30xx) and runtime (40xx).
#[derive(Debug, Clone, Copy, PartialEq, Eq, Hash, Structural)]
pub enum HankError {
    UnexpectedCharacter,
    UnclosedStringLiteral,
    EmptyScript,
    ExpectedMainTask,
    UnexpectedCodeOutsideMainTask,
    InvalidAssignmentTarget,
    UnexpectedToken,
    MacroRequiresString,
    ExpectedIdentifier,
    CircularDependency,
    ResourceContentNotLoaded,
    ScriptMustBeTask,
    MacroResourceNotFound,
    TargetNotFunction,
    TooManyArguments,
    MissingRequiredParameter,
    Halt,
    BitwiseOutOfBounds,
    GenericRuntimeError,
    TypeMismatch,
}

/// The numeric code of an error.
pub open spec fn error_code(e: HankError) -> i32 {
    match e {
        HankError::UnexpectedCharacter => 1001,
        HankError::UnclosedStringLiteral => 1002,
        HankError::EmptyScript => 2001,
        HankError::ExpectedMainTask => 2002,
        HankError::UnexpectedCodeOutsideMainTask => 2003,
        HankError::InvalidAssignmentTarget => 2004,
        HankError::UnexpectedToken => 2005,
        HankError::MacroRequiresString => 2006,
        HankError::ExpectedIdentifier => 2007,
        HankError::CircularDependency => 3001,
        HankError::ResourceContentNotLoaded => 3002,
        HankError::ScriptMustBeTask => 3003,
        HankError::MacroResourceNotFound => 3004,
        HankError::TargetNotFunction => 4001,
        HankError::TooManyArguments => 4002,
        HankError::MissingRequiredParameter => 4003,
        HankError::Halt => 4004,
        HankError::BitwiseOutOfBounds => 4005,
        HankError::GenericRuntimeError => 4006,
        HankError::TypeMismatch => 4007,
    }
}

/// Every error code, in declaration order.
pub open spec fn all_errors() -> Seq<HankError> {
    seq![
        HankError::UnexpectedCharacter,
        HankError::UnclosedStringLiteral,
        HankError::EmptyScript,
        HankError::ExpectedMainTask,
        HankError::UnexpectedCodeOutsideMainTask,
        HankError::InvalidAssignmentTarget,
        HankError::UnexpectedToken,
        HankError::MacroRequiresString,
        HankError::ExpectedIdentifier,
        HankError::CircularDependency,
        HankError::ResourceContentNotLoaded,
        HankError::ScriptMustBeTask,
        HankError::MacroResourceNotFound,
        HankError::TargetNotFunction,
        HankError::TooManyArguments,
        HankError::MissingRequiredParameter,
        HankError::Halt,
        HankError::BitwiseOutOfBounds,
        HankError::GenericRuntimeError,
        HankError::TypeMismatch,
    ]
}

/// No two errors share a numeric code.
pub proof fn law_error_codes_distinct(a: HankError, b: HankError)
    ensures
        error_code(a) == error_code(b) ==> a == b,
{
}

/// The list of error codes holds every error exactly once.
pub proof fn law_all_errors_listed(e: HankError)
    ensures
        all_errors().contains(e),
        forall|i: int, j: int|
            0 <= i < j < all_errors().len() ==> all_errors()[i] != all_errors()[j],
{
    let l = all_errors();
    assert(l[0] == HankError::UnexpectedCharacter);
    assert(l[1] == HankError::UnclosedStringLiteral);
    assert(l[2] == HankError::EmptyScript);
    assert(l[3] == HankError::ExpectedMainTask);
    assert(l[4] == HankError::UnexpectedCodeOutsideMainTask);
    assert(l[5] == HankError::InvalidAssignmentTarget);
    assert(l[6] == HankError::UnexpectedToken);
    assert(l[7] == HankError::MacroRequiresString);
    assert(l[8] == HankError::ExpectedIdentifier);
    assert(l[9] == HankError::CircularDependency);
    assert(l[10] == HankError::ResourceContentNotLoaded);
    assert(l[11] == HankError::ScriptMustBeTask);
    assert(l[12] == HankError::MacroResourceNotFound);
    assert(l[13] == HankError::TargetNotFunction);
    assert(l[14] == HankError::TooManyArguments);
    assert(l[15] == HankError::MissingRequiredParameter);
    assert(l[16] == HankError::Halt);
    assert(l[17] == HankError::BitwiseOutOfBounds);
    assert(l[18] == HankError::GenericRuntimeError);
    assert(l[19] == HankError::TypeMismatch);
    assert forall|i: int, j: int| 0 <= i < j < l.len() implies l[i] != l[j] by {
        assert(error_code(l[i]) < error_code(l[j]));
    }
}

impl HankError {
    /// The numeric code of this error (1001, 2005, 4007, ...).
    pub fn code(self) -> (r: i32)
        ensures
            r == error_code(self),
    {
        match self {
            HankError::UnexpectedCharacter => 1001,
            HankError::UnclosedStringLiteral => 1002,
            HankError::EmptyScript => 2001,
            HankError::ExpectedMainTask => 2002,
            HankError::UnexpectedCodeOutsideMainTask => 2003,
            HankError::InvalidAssignmentTarget => 2004,
            HankError::UnexpectedToken => 2005,
            HankError::MacroRequiresString => 2006,
            HankError::ExpectedIdentifier => 2007,
            HankError::CircularDependency => 3001,
            HankError::ResourceContentNotLoaded => 3002,
            HankError::ScriptMustBeTask => 3003,
            HankError::MacroResourceNotFound => 3004,
            HankError::TargetNotFunction => 4001,
            HankError::TooManyArguments => 4002,
            HankError::MissingRequiredParameter => 4003,
            HankError::Halt => 4004,
            HankError::BitwiseOutOfBounds => 4005,
            HankError::GenericRuntimeError => 4006,
            HankError::TypeMismatch => 4007,
        }
    }
}

/// A host-level error: its code and its rendered message.
#[derive(Debug, Clone)]
pub struct HankErrorValue {
    pub code: HankError,
    pub message: String,
}

impl HankErrorValue {
    /// The text of the error, which is its message.
    pub fn to_string(&self) -> (r: String)
        ensures
            r@ == self.message@,
    {
        self.message.clone()
    }
}

/// Where a token or a syntax node stands: its line number and the text of
/// that line.
#[derive(Debug)]
pub struct TokenData {
    pub line: usize,
    pub line_text: String,
}

/// The mathematical content of a [`TokenData`].
pub struct TokenDataView {
    pub line: nat,
    pub line_text: Seq<char>,
}

impl View for TokenData {
    type V = TokenDataView;

    open spec fn view(&self) -> TokenDataView {
        TokenDataView { line: self.line as nat, line_text: self.line_text@ }
    }
}

impl TokenData {
    /// A copy of this position.
    pub fn duplicate(&self) -> (r: TokenData)
        ensures
            r@ == self@,
    {
        TokenData { line: self.line, line_text: self.line_text.clone() }
    }
}

impl Clone for TokenData {
    fn clone(&self) -> (r: TokenData)
        ensures
            r@ == self@,
    {
        self.duplicate()
    }
}

impl Default for TokenData {
    fn default() -> (r: TokenData)
        ensures
            r@.line == 0,
            r@.line_text.len() == 0,
    {
        TokenData { line: 0, line_text: String::new() }
    }
}

/// A value that can render itself as Hank source text.
pub trait IHankSerializable {
    fn serialize_hal(&self) -> String;
}

} // verus!
