//! The message templates of the error codes, and the rendering of host errors.
use vstd::prelude::*;
use crate::text::{decimal, push_char, push_decimal, push_str, replace, replace_all};
use crate::types::{all_errors, HankError, HankErrorValue};

verus! {

/// The message template of an error code. `{i}` marks where argument `i` goes.
pub open spec fn message_template(code: HankError) -> Seq<char> {
    match code {
        HankError::UnexpectedCharacter => "Unexpected character: {0}"@,
        HankError::UnclosedStringLiteral => "Unclosed string literal"@,
        HankError::EmptyScript => "Syntax Error: Script is empty."@,
        HankError::ExpectedMainTask => "Syntax Error: Expected main task definition (a closure or a block)."@,
        HankError::UnexpectedCodeOutsideMainTask => "Syntax Error: Unexpected code outside of main task. A Hank script must contain exactly one Task definition."@,
        HankError::InvalidAssignmentTarget => "Invalid assignment target"@,
        HankError::UnexpectedToken => "Unexpected token: {0} ({1})"@,
        HankError::MacroRequiresString => "Syntax Error: The '@' macro strictly requires a string literal path (e.g., @ \"utils\"). Identifier shorthand is not allowed."@,
        HankError::ExpectedIdentifier => "Expected identifier, found {0}"@,
        HankError::CircularDependency => "Circular Dependency: {0}"@,
        HankError::ResourceContentNotLoaded => "Resource content not loaded: {0}"@,
        HankError::ScriptMustBeTask => "Hank Error: Script must evaluate to a Task definition."@,
        HankError::MacroResourceNotFound => "Macro resource not found: @{0}"@,
        HankError::TargetNotFunction => "Target is not a function: {0}"@,
        HankError::TooManyArguments => "Too many arguments"@,
        HankError::MissingRequiredParameter => "Missing required parameter: {0}"@,
        HankError::Halt => "HANK_HALT:{0}"@,
        HankError::BitwiseOutOfBounds => "Val exceeds safe integer bounds for bitwise operation: {0}"@,
        HankError::GenericRuntimeError => "{0}"@,
        HankError::TypeMismatch => "Type Mismatch: Expected {0}, got {1} in {2}"@,
    }
}

/// The placeholder `{i}` of argument `i`.
pub open spec fn placeholder(i: nat) -> Seq<char> {
    seq!['{'] + decimal(i) + seq!['}']
}

/// The template with the placeholders `{0}` .. `{k-1}` replaced, one after the
/// other, by the matching arguments.
pub open spec fn fill_template(t: Seq<char>, args: Seq<Seq<char>>, k: nat) -> Seq<char>
    decreases k,
{
    if k == 0 {
        t
    } else {
        replace_all(fill_template(t, args, (k - 1) as nat), placeholder((k - 1) as nat), args[k - 1])
    }
}

/// The message of an error: the filled template, framed with the file, the line
/// number and the line's text when all three are known.
pub open spec fn error_message(
    code: HankError,
    args: Seq<Seq<char>>,
    filename: Option<Seq<char>>,
    line: Option<usize>,
    line_text: Option<Seq<char>>,
) -> Seq<char> {
    let body = fill_template(message_template(code), args, args.len());
    match (filename, line, line_text) {
        (Some(f), Some(l), Some(lt)) => "ERROR: "@ + body + " in "@ + f + " at\n\t"@ + decimal(
            l as nat,
        ) + ":\t"@ + lt,
        _ => body,
    }
}

/// The views of a list of strings.
pub open spec fn strings_view(v: Seq<String>) -> Seq<Seq<char>> {
    v.map_values(|s: String| s@)
}

/// The views of an optional string slice.
pub open spec fn opt_str_view(o: Option<&str>) -> Option<Seq<char>> {
    match o {
        Some(s) => Some(s@),
        None => None,
    }
}

/// The registry of error messages.
pub struct HankErrorRegistry;

/// The template of an error code, as a string.
pub fn template(code: HankError) -> (r: String)
    ensures
        r@ == message_template(code),
{
    let s: &str = match code {
        HankError::UnexpectedCharacter => "Unexpected character: {0}",
        HankError::UnclosedStringLiteral => "Unclosed string literal",
        HankError::EmptyScript => "Syntax Error: Script is empty.",
        HankError::ExpectedMainTask => "Syntax Error: Expected main task definition (a closure or a block).",
        HankError::UnexpectedCodeOutsideMainTask => "Syntax Error: Unexpected code outside of main task. A Hank script must contain exactly one Task definition.",
        HankError::InvalidAssignmentTarget => "Invalid assignment target",
        HankError::UnexpectedToken => "Unexpected token: {0} ({1})",
        HankError::MacroRequiresString => "Syntax Error: The '@' macro strictly requires a string literal path (e.g., @ \"utils\"). Identifier shorthand is not allowed.",
        HankError::ExpectedIdentifier => "Expected identifier, found {0}",
        HankError::CircularDependency => "Circular Dependency: {0}",
        HankError::ResourceContentNotLoaded => "Resource content not loaded: {0}",
        HankError::ScriptMustBeTask => "Hank Error: Script must evaluate to a Task definition.",
        HankError::MacroResourceNotFound => "Macro resource not found: @{0}",
        HankError::TargetNotFunction => "Target is not a function: {0}",
        HankError::TooManyArguments => "Too many arguments",
        HankError::MissingRequiredParameter => "Missing required parameter: {0}",
        HankError::Halt => "HANK_HALT:{0}",
        HankError::BitwiseOutOfBounds => "Val exceeds safe integer bounds for bitwise operation: {0}",
        HankError::GenericRuntimeError => "{0}",
        HankError::TypeMismatch => "Type Mismatch: Expected {0}, got {1} in {2}",
    };
    s.to_owned()
}

/// The list of every error code in declaration order.
fn error_list() -> (r: Vec<HankError>)
    ensures
        r@ == all_errors(),
{
    let r = vec![
        HankError::UnexpectedCharacter,
        HankError::UnclosedStringLiteral,
        HankError::EmptyScript,
        HankError::ExpectedMainTask,
        HankError::UnexpectedCodeOutsideMainTask,
        HankError::InvalidAssignmentTarget,
        HankError::UnexpectedToken,
        HankError::MacroRequiresString,
        HankError::ExpectedIdentifier,
        HankError::CircularDependency,
        HankError::ResourceContentNotLoaded,
        HankError::ScriptMustBeTask,
        HankError::MacroResourceNotFound,
        HankError::TargetNotFunction,
        HankError::TooManyArguments,
        HankError::MissingRequiredParameter,
        HankError::Halt,
        HankError::BitwiseOutOfBounds,
        HankError::GenericRuntimeError,
        HankError::TypeMismatch,
    ];
    assert(r@ =~= all_errors());
    r
}

impl HankErrorRegistry {
    /// Every error code with its message template, one entry per code.
    pub fn get_messages() -> (r: Vec<(HankError, String)>)
        ensures
            r@.len() == all_errors().len(),
            forall|i: int|
                0 <= i < r@.len() ==> (#[trigger] r@[i]).0 == all_errors()[i] && r@[i].1@
                    == message_template(r@[i].0),
    {
        let codes = error_list();
        let mut m: Vec<(HankError, String)> = Vec::new();
        let mut i: usize = 0;
        while i < codes.len()
            invariant
                codes@ == all_errors(),
                i <= codes@.len(),
                m@.len() == i,
                forall|j: int|
                    0 <= j < i ==> (#[trigger] m@[j]).0 == all_errors()[j] && m@[j].1@
                        == message_template(m@[j].0),
            decreases codes.len() - i,
        {
            let c = codes[i];
            let t = template(c);
            let ghost prev = m@;
            m.push((c, t));
            assert(forall|j: int| 0 <= j < i ==> m@[j] == prev[j]);
            assert(m@[i as int].1@ == message_template(m@[i as int].0));
            i = i + 1;
        }
        m
    }

    /// Renders an error: the code's template with `{i}` replaced by `args[i]`
    /// for each argument in turn, framed as
    /// `ERROR: <message> in <file> at\n\t<line>:\t<line text>` when the file,
    /// the line and its text are all given.
    pub fn create(
        code: HankError,
        args: Vec<String>,
        filename: Option<&str>,
        line: Option<usize>,
        line_text: Option<&str>,
    ) -> (r: HankErrorValue)
        ensures
            r.code == code,
            r.message@ == error_message(
                code,
                strings_view(args@),
                opt_str_view(filename),
                line,
                opt_str_view(line_text),
            ),
    {
        let ghost av = strings_view(args@);
        let mut tmpl = template(code);
        let mut i: usize = 0;
        while i < args.len()
            invariant
                av == strings_view(args@),
                i <= args@.len(),
                tmpl@ == fill_template(message_template(code), av, i as nat),
            decreases args.len() - i,
        {
            let mut ph = String::new();
            push_char(&mut ph, '{');
            push_decimal(&mut ph, i);
            push_char(&mut ph, '}');
            assert(ph@ =~= placeholder(i as nat));
            let next = replace(tmpl.as_str(), ph.as_str(), args[i].as_str());
            tmpl = next;
            i = i + 1;
        }
        match (filename, line, line_text) {
            (Some(f), Some(l), Some(lt)) => {
                let mut out = "ERROR: ".to_owned();
                push_str(&mut out, tmpl.as_str());
                push_str(&mut out, " in ");
                push_str(&mut out, f);
                push_str(&mut out, " at\n\t");
                push_decimal(&mut out, l);
                push_str(&mut out, ":\t");
                push_str(&mut out, lt);
                HankErrorValue { code, message: out }
            },
            _ => HankErrorValue { code, message: tmpl },
        }
    }
}

} // verus!
