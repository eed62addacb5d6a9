//! Character classes, decimal rendering and pattern replacement on text.
use vstd::prelude::*;

verus! {

/// The Unicode `White_Space` property, which `char::is_whitespace` decides:
/// the controls from tab to carriage return, space, next line, no-break
/// space, ogham space mark, the spaces from en quad to hair space, line and
/// paragraph separators, narrow no-break space, medium mathematical space and
/// ideographic space.
pub open spec fn unicode_whitespace(c: char) -> bool {
    ||| ('\u{9}' <= c && c <= '\u{d}')
    ||| c == ' '
    ||| c == '\u{85}'
    ||| c == '\u{a0}'
    ||| c == '\u{1680}'
    ||| ('\u{2000}' <= c && c <= '\u{200a}')
    ||| c == '\u{2028}'
    ||| c == '\u{2029}'
    ||| c == '\u{202f}'
    ||| c == '\u{205f}'
    ||| c == '\u{3000}'
}

/// Unicode `Alphabetic` property of a character, as `char::is_alphabetic` decides it.
pub uninterp spec fn unicode_alphabetic(c: char) -> bool;

/// `Alphabetic` or `Numeric`, as `char::is_alphanumeric` decides it.
pub uninterp spec fn unicode_alphanumeric(c: char) -> bool;

/// Whether a character is whitespace, as `char::is_whitespace` decides it.
pub fn is_whitespace(c: char) -> (r: bool)
    ensures
        r == unicode_whitespace(c),
{
    ('\u{9}' <= c && c <= '\u{d}') || c == ' ' || c == '\u{85}' || c == '\u{a0}' || c == '\u{1680}'
        || ('\u{2000}' <= c && c <= '\u{200a}') || c == '\u{2028}' || c == '\u{2029}' || c == '\u{202f}'
        || c == '\u{205f}' || c == '\u{3000}'
}

/// Calls `char::is_alphabetic`: the character's `Alphabetic` property,
/// which among ASCII characters the letters alone have.
#[verifier::external_body]
pub fn is_alphabetic(c: char) -> (r: bool)
    ensures
        r == unicode_alphabetic(c),
        c <= '\u{7f}' ==> (r <==> (('a' <= c && c <= 'z') || ('A' <= c && c <= 'Z'))),
{
    c.is_alphabetic()
}

/// Calls `char::is_alphanumeric`: `Alphabetic` or `Numeric`, so every
/// alphabetic character is alphanumeric; among ASCII characters, the
/// letters and the digits are, and nothing else.
#[verifier::external_body]
pub fn is_alphanumeric(c: char) -> (r: bool)
    ensures
        r == unicode_alphanumeric(c),
        unicode_alphabetic(c) ==> r,
        c <= '\u{7f}' ==> (r <==> (('a' <= c && c <= 'z') || ('A' <= c && c <= 'Z') || ('0' <= c && c
            <= '9'))),
{
    c.is_alphanumeric()
}

/// Calls `String::push`, which appends one character.
#[verifier::external_body]
pub fn push_char(s: &mut String, c: char)
    ensures
        final(s)@ == old(s)@.push(c),
{
    s.push(c);
}

/// Calls `String::push_str`, which appends a string slice.
#[verifier::external_body]
pub fn push_str(s: &mut String, t: &str)
    ensures
        final(s)@ == old(s)@ + t@,
{
    s.push_str(t);
}

/// An ASCII decimal digit.
pub open spec fn is_digit_char(c: char) -> bool {
    '0' <= c && c <= '9'
}

/// The digit character of a value below ten.
pub open spec fn digit_char(d: nat) -> char {
    if d == 0 { '0' }
    else if d == 1 { '1' }
    else if d == 2 { '2' }
    else if d == 3 { '3' }
    else if d == 4 { '4' }
    else if d == 5 { '5' }
    else if d == 6 { '6' }
    else if d == 7 { '7' }
    else if d == 8 { '8' }
    else { '9' }
}

/// The decimal rendering of a natural number, without leading zeros.
pub open spec fn decimal(n: nat) -> Seq<char>
    decreases n,
{
    if n < 10 {
        seq![digit_char(n)]
    } else {
        decimal(n / 10).push(digit_char(n % 10))
    }
}

fn digit(d: usize) -> (c: char)
    requires
        d < 10,
    ensures
        c == digit_char(d as nat),
{
    if d == 0 { '0' }
    else if d == 1 { '1' }
    else if d == 2 { '2' }
    else if d == 3 { '3' }
    else if d == 4 { '4' }
    else if d == 5 { '5' }
    else if d == 6 { '6' }
    else if d == 7 { '7' }
    else if d == 8 { '8' }
    else { '9' }
}

/// Appends the decimal rendering of `n` to `out`.
pub fn push_decimal(out: &mut String, n: usize)
    ensures
        final(out)@ == old(out)@ + decimal(n as nat),
    decreases n,
{
    if n < 10 {
        push_char(out, digit(n));
        assert(decimal(n as nat) == seq![digit_char(n as nat)]);
    } else {
        push_decimal(out, n / 10);
        push_char(out, digit(n % 10));
    }
}

/// `s` with every non-overlapping occurrence of `pat`, scanned from the left,
/// replaced by `rep`.
pub open spec fn replace_all(s: Seq<char>, pat: Seq<char>, rep: Seq<char>) -> Seq<char>
    decreases s.len(),
{
    if pat.len() == 0 || s.len() < pat.len() {
        s
    } else if s.take(pat.len() as int) == pat {
        rep + replace_all(s.skip(pat.len() as int), pat, rep)
    } else {
        seq![s[0]] + replace_all(s.skip(1), pat, rep)
    }
}

/// Replacing a pattern that does not occur leaves the text as it is.
pub proof fn law_replace_absent(t: Seq<char>, pat: Seq<char>, rep: Seq<char>)
    requires
        forall|i: int| !occurs_at(t, pat, i),
    ensures
        replace_all(t, pat, rep) == t,
    decreases t.len(),
{
    if pat.len() == 0 || t.len() < pat.len() {
    } else {
        assert(!occurs_at(t, pat, 0));
        assert(t.subrange(0, pat.len() as int) == t.take(pat.len() as int));
        assert forall|i: int| !occurs_at(t.skip(1), pat, i) by {
            if occurs_at(t.skip(1), pat, i) {
                assert(t.skip(1).subrange(i, i + pat.len()) =~= t.subrange(i + 1, i + 1 + pat.len()));
                assert(occurs_at(t, pat, i + 1));
            }
        }
        law_replace_absent(t.skip(1), pat, rep);
        assert(seq![t[0]] + t.skip(1) =~= t);
    }
}

/// A text that starts with the pattern: the replacement, then the rest with
/// every occurrence replaced as well.
pub proof fn law_replace_leading(s: Seq<char>, pat: Seq<char>, rep: Seq<char>)
    requires
        pat.len() > 0,
    ensures
        replace_all(pat + s, pat, rep) == rep + replace_all(s, pat, rep),
{
    assert((pat + s).take(pat.len() as int) =~= pat);
    assert((pat + s).skip(pat.len() as int) =~= s);
}

/// Whether `pat` occurs in `s` at index `i`.
pub open spec fn occurs_at(s: Seq<char>, pat: Seq<char>, i: int) -> bool {
    0 <= i && i + pat.len() <= s.len() && s.subrange(i, i + pat.len()) == pat
}

pub(crate) fn matches_at(s: &Vec<char>, pat: &Vec<char>, i: usize) -> (r: bool)
    requires
        i <= s.len(),
    ensures
        r == occurs_at(s@, pat@, i as int),
{
    if pat.len() > s.len() - i {
        return false;
    }
    let mut j: usize = 0;
    while j < pat.len()
        invariant
            i + pat.len() <= s.len(),
            j <= pat.len(),
            forall|k: int| 0 <= k < j ==> s@[i + k] == pat@[k],
        decreases pat.len() - j,
    {
        if s[i + j] != pat[j] {
            assert(s@.subrange(i as int, i + pat.len())[j as int] != pat@[j as int]);
            return false;
        }
        j = j + 1;
    }
    assert(s@.subrange(i as int, i + pat.len()) =~= pat@);
    true
}

proof fn lemma_replace_step(s: Seq<char>, pat: Seq<char>, rep: Seq<char>, i: int)
    requires
        pat.len() > 0,
        0 <= i <= s.len(),
    ensures
        s.skip(i).len() >= pat.len() ==> (s.skip(i).take(pat.len() as int) == pat <==> occurs_at(
            s,
            pat,
            i,
        )),
        s.skip(i).len() >= pat.len() && occurs_at(s, pat, i) ==> replace_all(s.skip(i), pat, rep)
            == rep + replace_all(s.skip(i + pat.len()), pat, rep),
        s.skip(i).len() >= pat.len() && !occurs_at(s, pat, i) ==> replace_all(s.skip(i), pat, rep)
            == seq![s[i]] + replace_all(s.skip(i + 1), pat, rep),
        s.skip(i).len() < pat.len() ==> replace_all(s.skip(i), pat, rep) == s.skip(i),
{
    if s.skip(i).len() >= pat.len() {
        assert(s.skip(i).take(pat.len() as int) =~= s.subrange(i, i + pat.len()));
        assert(s.skip(i).skip(pat.len() as int) =~= s.skip(i + pat.len()));
        assert(s.skip(i).skip(1) =~= s.skip(i + 1));
    }
}

/// Replaces every non-overlapping occurrence of `pat` in `s`, scanned from the
/// left, by `rep`.
pub fn replace(s: &str, pat: &str, rep: &str) -> (r: String)
    requires
        pat@.len() > 0,
    ensures
        r@ == replace_all(s@, pat@, rep@),
{
    let sv = chars_of(s);
    let pv = chars_of(pat);
    let mut out = String::new();
    let mut i: usize = 0;
    assert(sv@.skip(0) =~= sv@);
    while i < sv.len()
        invariant
            sv@ == s@,
            pv@ == pat@,
            pat@.len() > 0,
            i <= sv.len(),
            replace_all(s@, pat@, rep@) == out@ + replace_all(s@.skip(i as int), pat@, rep@),
        decreases sv.len() - i,
    {
        proof {
            lemma_replace_step(s@, pat@, rep@, i as int);
        }
        if pv.len() <= sv.len() - i && matches_at(&sv, &pv, i) {
            push_str(&mut out, rep);
            i = i + pv.len();
        } else {
            push_char(&mut out, sv[i]);
            i = i + 1;
        }
    }
    proof {
        lemma_replace_step(s@, pat@, rep@, i as int);
        assert(s@.skip(i as int).len() == 0);
    }
    out
}

/// The characters of a string slice, in order.
pub fn chars_of(s: &str) -> (v: Vec<char>)
    ensures
        v@ == s@,
{
    let mut v: Vec<char> = Vec::new();
    for c in it: s.chars()
        invariant
            it.seq() == s@,
            v@.len() == it.index(),
            v@ == s@.take(v@.len() as int),
    {
        v.push(c);
        assert(s@.take(v@.len() as int) =~= v@);
    }
    assert(s@.take(s@.len() as int) =~= s@);
    v
}

/// The string made of the characters `v[start..end]`.
pub fn string_from_range(v: &Vec<char>, start: usize, end: usize) -> (s: String)
    requires
        start <= end <= v.len(),
    ensures
        s@ == v@.subrange(start as int, end as int),
{
    let mut s = String::new();
    let mut i = start;
    while i < end
        invariant
            start <= i <= end <= v.len(),
            s@ == v@.subrange(start as int, i as int),
        decreases end - i,
    {
        push_char(&mut s, v[i]);
        assert(s@ =~= v@.subrange(start as int, i + 1));
        i = i + 1;
    }
    s
}

/// Whether two strings hold the same characters.
pub fn text_eq(a: &str, b: &str) -> (r: bool)
    ensures
        r == (a@ == b@),
{
    let av = chars_of(a);
    let bv = chars_of(b);
    if av.len() != bv.len() {
        return false;
    }
    let mut i: usize = 0;
    while i < av.len()
        invariant
            av@ == a@,
            bv@ == b@,
            av@.len() == bv@.len(),
            i <= av.len(),
            forall|j: int| 0 <= j < i ==> av@[j] == bv@[j],
        decreases av.len() - i,
    {
        if av[i] != bv[i] {
            return false;
        }
        i = i + 1;
    }
    assert(av@ =~= bv@);
    true
}

/// Whether `pat` occurs somewhere in `s`.
pub open spec fn contains_text(s: Seq<char>, pat: Seq<char>) -> bool {
    exists|i: int| occurs_at(s, pat, i)
}

/// Whether `pat` occurs somewhere in `s`; the empty pattern occurs everywhere.
pub fn text_contains(s: &str, pat: &str) -> (r: bool)
    ensures
        r == contains_text(s@, pat@),
{
    let sv = chars_of(s);
    let pv = chars_of(pat);
    let mut i: usize = 0;
    while i < sv.len()
        invariant
            sv@ == s@,
            pv@ == pat@,
            i <= sv.len(),
            forall|j: int| 0 <= j < i ==> !occurs_at(s@, pat@, j),
        decreases sv.len() - i,
    {
        if matches_at(&sv, &pv, i) {
            return true;
        }
        i = i + 1;
    }
    if matches_at(&sv, &pv, i) {
        return true;
    }
    assert forall|j: int| !occurs_at(s@, pat@, j) by {
        if 0 <= j <= sv.len() {
        }
    }
    false
}

/// `s` without its leading whitespace.
pub open spec fn trim_front(s: Seq<char>) -> Seq<char>
    decreases s.len(),
{
    if s.len() > 0 && unicode_whitespace(s[0]) {
        trim_front(s.drop_first())
    } else {
        s
    }
}

/// `s` without its trailing whitespace.
pub open spec fn trim_back(s: Seq<char>) -> Seq<char>
    decreases s.len(),
{
    if s.len() > 0 && unicode_whitespace(s.last()) {
        trim_back(s.drop_last())
    } else {
        s
    }
}

/// `s` without its leading and trailing whitespace, as `str::trim` gives it.
pub open spec fn trim_text(s: Seq<char>) -> Seq<char> {
    trim_back(trim_front(s))
}

proof fn lemma_trim_front_shape(s: Seq<char>)
    ensures
        trim_front(s).len() == 0 || !unicode_whitespace(trim_front(s)[0]),
    decreases s.len(),
{
    if s.len() > 0 && unicode_whitespace(s[0]) {
        lemma_trim_front_shape(s.drop_first());
    }
}

proof fn lemma_trim_back_shape(s: Seq<char>)
    ensures
        trim_back(s) =~= s.take(trim_back(s).len() as int),
        trim_back(s).len() <= s.len(),
        trim_back(s).len() == 0 || !unicode_whitespace(trim_back(s).last()),
    decreases s.len(),
{
    if s.len() > 0 && unicode_whitespace(s.last()) {
        lemma_trim_back_shape(s.drop_last());
        assert(s.drop_last().take(trim_back(s).len() as int) =~= s.take(trim_back(s).len() as int));
    }
}

/// Trimming twice is trimming once.
pub proof fn law_trim_idempotent(s: Seq<char>)
    ensures
        trim_text(trim_text(s)) == trim_text(s),
{
    let f = trim_front(s);
    let b = trim_back(f);
    lemma_trim_front_shape(s);
    lemma_trim_back_shape(f);
    if b.len() > 0 {
        assert(b[0] == f[0]);
    }
    assert(trim_front(b) == b);
    assert(trim_back(b) == b);
}

/// `s` without its leading and trailing whitespace.
pub fn trim(s: &str) -> (r: String)
    ensures
        r@ == trim_text(s@),
{
    let v = chars_of(s);
    let mut start: usize = 0;
    assert(v@.skip(0) =~= v@);
    while start < v.len() && is_whitespace(v[start])
        invariant
            v@ == s@,
            start <= v.len(),
            trim_front(s@) == trim_front(v@.skip(start as int)),
        decreases v.len() - start,
    {
        assert(v@.skip(start as int).drop_first() =~= v@.skip(start + 1));
        start = start + 1;
    }
    assert(trim_front(v@.skip(start as int)) == v@.skip(start as int));
    let mut end: usize = v.len();
    assert(v@.skip(start as int) =~= v@.subrange(start as int, end as int));
    while end > start && is_whitespace(v[end - 1])
        invariant
            v@ == s@,
            start <= end <= v.len(),
            trim_text(s@) == trim_back(v@.subrange(start as int, end as int)),
        decreases end - start,
    {
        assert(v@.subrange(start as int, end as int).drop_last() =~= v@.subrange(start as int, end - 1));
        end = end - 1;
    }
    string_from_range(&v, start, end)
}

/// The `Debug` rendering of a string: quoted, with escapes.
pub uninterp spec fn debug_text(s: Seq<char>) -> Seq<char>;

/// Calls `<str as Debug>::fmt` through `format!("{:?}")`: the string in double
/// quotes, with quotes, backslashes and control characters escaped. The exact
/// escaping is left to that function.
#[verifier::external_body]
pub fn debug_str(s: &str) -> (r: String)
    ensures
        r@ == debug_text(s@),
{
    format!("{:?}", s)
}

/// The index of the last occurrence of `c` in `s`, or -1.
pub open spec fn last_index(s: Seq<char>, c: char) -> int
    decreases s.len(),
{
    if s.len() == 0 {
        -1
    } else if s[s.len() - 1] == c {
        s.len() - 1
    } else {
        last_index(s.take(s.len() - 1), c)
    }
}

/// The final component of a `/`-separated path: empty and `.` components are
/// skipped, and there is none when the path ends in `..` or has no component.
pub open spec fn file_name(s: Seq<char>) -> Option<Seq<char>>
    decreases s.len(),
{
    if s.len() == 0 {
        None
    } else {
        let i = last_index(s, '/');
        let seg = s.skip(i + 1);
        if seg == "."@ || seg.len() == 0 {
            if 0 <= i < s.len() {
                file_name(s.take(i))
            } else {
                None
            }
        } else if seg == ".."@ {
            None
        } else {
            Some(seg)
        }
    }
}

/// The part of a file name before its extension: before the last `.`, unless
/// there is none or the only one starts the name.
pub open spec fn stem_of(name: Seq<char>) -> Seq<char> {
    let j = last_index(name, '.');
    if j <= 0 {
        name
    } else {
        name.take(j)
    }
}

/// The stem of the final component of a path, as `Path::file_stem` gives it on
/// Unix.
pub open spec fn file_stem(s: Seq<char>) -> Option<Seq<char>> {
    match file_name(s) {
        Some(n) => Some(stem_of(n)),
        None => None,
    }
}

pub proof fn lemma_last_index(s: Seq<char>, c: char)
    ensures
        -1 <= last_index(s, c) < s.len(),
        last_index(s, c) >= 0 ==> s[last_index(s, c)] == c,
        forall|k: int| last_index(s, c) < k < s.len() ==> s[k] != c,
    decreases s.len(),
{
    if s.len() > 0 && s[s.len() - 1] != c {
        let t = s.take(s.len() - 1);
        lemma_last_index(t, c);
        assert forall|k: int| last_index(s, c) < k < s.len() implies s[k] != c by {
            if k < s.len() - 1 {
                assert(t[k] == s[k]);
            }
        }
    }
}

fn find_last(v: &Vec<char>, end: usize, c: char) -> (r: Option<usize>)
    requires
        end <= v.len(),
    ensures
        match r {
            Some(i) => last_index(v@.take(end as int), c) == i as int,
            None => last_index(v@.take(end as int), c) == -1,
        },
{
    let mut j = end;
    while j > 0
        invariant
            j <= end <= v.len(),
            last_index(v@.take(end as int), c) == last_index(v@.take(j as int), c),
        decreases j,
    {
        if v[j - 1] == c {
            return Some(j - 1);
        }
        assert(v@.take(j as int).take(j - 1) =~= v@.take(j - 1));
        j = j - 1;
    }
    None
}

fn is_text(v: &Vec<char>, start: usize, end: usize, lit: &str) -> (r: bool)
    requires
        start <= end <= v.len(),
    ensures
        r == (v@.subrange(start as int, end as int) == lit@),
{
    let w = chars_of(lit);
    if end - start != w.len() {
        return false;
    }
    let mut i: usize = 0;
    while i < w.len()
        invariant
            w@ == lit@,
            start <= end <= v.len(),
            end - start == w.len(),
            i <= w.len(),
            forall|k: int| 0 <= k < i ==> v@[start + k] == w@[k],
        decreases w.len() - i,
    {
        if v[start + i] != w[i] {
            assert(v@.subrange(start as int, end as int)[i as int] != lit@[i as int]);
            return false;
        }
        i = i + 1;
    }
    assert(v@.subrange(start as int, end as int) =~= lit@);
    true
}

/// The stem of the final component of a path, as `Path::file_stem` gives it on
/// Unix: `"lib/utils.hank"` gives `"utils"`, `"a/b"` gives `"b"`, `".."` none.
pub fn path_file_stem(path: &str) -> (r: Option<String>)
    ensures
        match r {
            Some(x) => file_stem(path@) == Some(x@),
            None => file_stem(path@) is None,
        },
{
    let v = chars_of(path);
    let mut end = v.len();
    assert(v@.take(end as int) =~= path@);
    loop
        invariant
            end <= v.len(),
            v@ == path@,
            file_name(path@) == file_name(v@.take(end as int)),
        decreases end,
    {
        if end == 0 {
            return None;
        }
        let ghost s = v@.take(end as int);
        let i = find_last(&v, end, '/');
        proof {
            lemma_last_index(s, '/');
        }
        let seg_start = match i {
            Some(k) => k + 1,
            None => 0,
        };
        proof {
            lemma_last_index(s, '/');
            assert(s.skip(seg_start as int) =~= v@.subrange(seg_start as int, end as int));
        }
        if is_text(&v, seg_start, end, ".") || seg_start == end {
            match i {
                Some(k) => {
                    assert(s.take(k as int) =~= v@.take(k as int));
                    end = k;
                },
                None => {
                    return None;
                },
            }
        } else if is_text(&v, seg_start, end, "..") {
            return None;
        } else {
            let name = string_from_range(&v, seg_start, end);
            let nv = chars_of(name.as_str());
            let d = find_last(&nv, nv.len(), '.');
            assert(nv@.take(nv@.len() as int) =~= nv@);
            proof {
                lemma_last_index(nv@, '.');
            }
            match d {
                Some(j) => {
                    if j == 0 {
                        return Some(name);
                    }
                    return Some(string_from_range(&nv, 0, j));
                },
                None => {
                    return Some(name);
                },
            }
        }
    }
}

} // verus!
