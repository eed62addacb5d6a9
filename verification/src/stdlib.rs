//! The text logic of the standard library: `str.format`, and the `regex`
//! module on top of `regex_lite`.
use vstd::prelude::*;
use crate::error_registry::strings_view;
use crate::text::{chars_of, decimal, law_replace_absent, occurs_at, push_char, push_decimal, push_str, replace, replace_all};

verus! {

/// `str.format` of a template and its arguments: `%1`, `%2`, .. replaced, one
/// after the other, by the arguments `parts[1]`, `parts[2]`, ..
pub open spec fn format_spec(parts: Seq<Seq<char>>, k: nat) -> Seq<char>
    decreases k,
{
    if k <= 1 {
        parts[0]
    } else {
        replace_all(format_spec(parts, (k - 1) as nat), seq!['%'] + decimal((k - 1) as nat), parts[k - 1])
    }
}

proof fn lemma_format_prefix(s: Seq<Seq<char>>, x: Seq<char>, k: nat)
    requires
        1 <= k <= s.len(),
    ensures
        format_spec(s.push(x), k) == format_spec(s, k),
    decreases k,
{
    if k > 1 {
        lemma_format_prefix(s, x, (k - 1) as nat);
        assert(s.push(x)[k - 1] == s[k - 1]);
    } else {
        assert(s.push(x)[0] == s[0]);
    }
}

/// The marker that argument `i` of `str.format` replaces: `%` and `i`.
pub open spec fn marker(i: nat) -> Seq<char> {
    seq!['%'] + decimal(i)
}

/// `str.format` with no arguments gives the template as it is.
pub proof fn law_format_no_arguments(t: Seq<char>)
    ensures
        format_spec(seq![t], 1) == t,
{
}

/// One more argument: the result with `n` parts (the template and `n - 1`
/// arguments) and a further argument `x` is the earlier result with every
/// `%n` in it replaced by `x`; the earlier arguments are all substituted
/// first, whatever their number.
pub proof fn law_format_adds_argument(s: Seq<Seq<char>>, x: Seq<char>)
    requires
        s.len() >= 1,
    ensures
        format_spec(s.push(x), s.len() + 1) == replace_all(format_spec(s, s.len()), marker(s.len()), x),
{
    lemma_format_prefix(s, x, s.len());
    assert(s.push(x)[s.len() as int] == x);
}

/// Where the earlier arguments leave just the marker `%n` of the next
/// argument `x`, the result is `x`, whatever `n` is.
pub proof fn law_format_marker_template(s: Seq<Seq<char>>, x: Seq<char>)
    requires
        s.len() >= 1,
        format_spec(s, s.len()) == marker(s.len()),
    ensures
        format_spec(s.push(x), s.len() + 1) == x,
{
    law_format_adds_argument(s, x);
    let m = marker(s.len());
    assert(m.len() >= 1);
    assert(m.take(m.len() as int) =~= m);
    assert(m.skip(m.len() as int) =~= Seq::<char>::empty());
    assert(replace_all(Seq::<char>::empty(), m, x) == Seq::<char>::empty());
    assert(replace_all(m, m, x) == x + replace_all(m.skip(m.len() as int), m, x));
    assert(x + Seq::<char>::empty() =~= x);
}

/// Where the marker `%n` of the next argument does not occur in the result
/// so far, the argument changes nothing.
pub proof fn law_format_ignores_absent_marker(s: Seq<Seq<char>>, x: Seq<char>)
    requires
        s.len() >= 1,
        forall|i: int| !occurs_at(format_spec(s, s.len()), marker(s.len()), i),
    ensures
        format_spec(s.push(x), s.len() + 1) == format_spec(s, s.len()),
{
    law_format_adds_argument(s, x);
    law_replace_absent(format_spec(s, s.len()), marker(s.len()), x);
}

/// Formats `parts[0]` with the arguments `parts[1..]`: each `%i` in turn is
/// replaced by `parts[i]`.
pub fn format_parts(parts: &Vec<String>) -> (r: String)
    requires
        parts@.len() > 0,
    ensures
        r@ == format_spec(strings_view(parts@), parts@.len() as nat),
{
    let ghost pv = strings_view(parts@);
    let mut res = parts[0].clone();
    let mut i: usize = 1;
    while i < parts.len()
        invariant
            pv == strings_view(parts@),
            1 <= i <= parts@.len(),
            res@ == format_spec(pv, i as nat),
        decreases parts.len() - i,
    {
        let mut ph = String::new();
        push_char(&mut ph, '%');
        push_decimal(&mut ph, i);
        assert(ph@ =~= seq!['%'] + decimal(i as nat));
        res = replace(res.as_str(), ph.as_str(), parts[i].as_str());
        i = i + 1;
    }
    res
}

/// Whether the regular expression syntax of `regex_lite` accepts `pattern`
/// within its size limit.
pub uninterp spec fn regex_valid(pattern: Seq<char>) -> bool;

/// Whether the regular expression `pattern` matches somewhere in `text`.
pub uninterp spec fn regex_matches(pattern: Seq<char>, text: Seq<char>) -> bool;

#[verifier::external_type_specification]
#[verifier::external_body]
pub struct ExRegex(regex_lite::Regex);

/// A compiled regular expression with the pattern it was compiled from.
pub struct HankRegex {
    source: String,
    engine: regex_lite::Regex,
}

impl HankRegex {
    /// The pattern this expression was compiled from.
    pub closed spec fn pattern(&self) -> Seq<char> {
        self.source@
    }

    /// The pattern this expression was compiled from.
    pub fn source(&self) -> (r: &str)
        ensures
            r@ == self.pattern(),
    {
        self.source.as_str()
    }
}

/// Calls `regex_lite::Regex::new`, which compiles a pattern, or fails on an
/// invalid one or one over the size limit. The claim is that the result
/// depends on the pattern alone, and keeps the pattern beside the engine.
#[verifier::external_body]
fn regex_new(pattern: String) -> (r: Option<HankRegex>)
    ensures
        r is Some == regex_valid(pattern@),
        r matches Some(x) ==> x.pattern() == pattern@,
{
    match regex_lite::Regex::new(pattern.as_str()) {
        Ok(engine) => Some(HankRegex { source: pattern, engine }),
        Err(_) => None,
    }
}

/// Calls `regex_lite::Regex::is_match`: whether the expression, compiled from
/// its pattern, matches somewhere in `text`.
#[verifier::external_body]
fn regex_is_match(re: &HankRegex, text: &str) -> (r: bool)
    ensures
        r == regex_matches(re.pattern(), text@),
{
    re.engine.is_match(text)
}

/// The pattern that `regex.parse` compiles: the flag `i` turns on case
/// insensitivity with a `(?i)` prefix.
pub open spec fn regex_source(pattern: Seq<char>, flags: Seq<char>) -> Seq<char> {
    if flags.contains('i') {
        "(?i)"@ + pattern
    } else {
        pattern
    }
}

/// The flag `i` anywhere among the flags makes the compiled pattern the
/// pattern after `(?i)`; without it the pattern is compiled as it is.
pub proof fn law_case_flag(pattern: Seq<char>, flags: Seq<char>, k: int)
    ensures
        0 <= k < flags.len() && flags[k] == 'i' ==> regex_source(pattern, flags) == seq!['(', '?', 'i', ')']
            + pattern,
        (forall|j: int| 0 <= j < flags.len() ==> flags[j] != 'i') ==> regex_source(pattern, flags)
            == pattern,
{
    reveal_strlit("(?i)");
    assert("(?i)"@ =~= seq!['(', '?', 'i', ')']);
    if 0 <= k < flags.len() && flags[k] == 'i' {
        assert(flags.contains('i'));
    }
}

/// Whether `c` occurs in `s`.
fn has_char(s: &str, c: char) -> (r: bool)
    ensures
        r == s@.contains(c),
{
    let v = chars_of(s);
    let mut i: usize = 0;
    while i < v.len()
        invariant
            v@ == s@,
            i <= v.len(),
            forall|j: int| 0 <= j < i ==> v@[j] != c,
        decreases v.len() - i,
    {
        if v[i] == c {
            return true;
        }
        i = i + 1;
    }
    false
}

/// Compiles `pattern` with `flags` as `regex.parse` does; `None` when the
/// pattern does not compile.
pub fn compile(pattern: &str, flags: &str) -> (r: Option<HankRegex>)
    ensures
        r is Some == regex_valid(regex_source(pattern@, flags@)),
        r matches Some(x) ==> x.pattern() == regex_source(pattern@, flags@),
{
    let mut src = String::new();
    if has_char(flags, 'i') {
        push_str(&mut src, "(?i)");
    }
    push_str(&mut src, pattern);
    proof {
        reveal_strlit("(?i)");
    }
    regex_new(src)
}

/// Whether `re` matches somewhere in `text`.
pub fn is_match(re: &HankRegex, text: &str) -> (r: bool)
    ensures
        r == regex_matches(re.pattern(), text@),
{
    regex_is_match(re, text)
}

} // verus!
