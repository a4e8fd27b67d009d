//! Text primitives: the std string operations the engine relies on, and a
//! verified conversion from a string to its characters.
use vstd::prelude::*;
use vstd::std_specs::iter::IteratorSpec;
use vstd::utf8::*;

verus! {

/// What `str::to_lowercase` yields for a character sequence.
pub uninterp spec fn lower_of(s: Seq<char>) -> Seq<char>;

/// What `str::trim` yields for a character sequence.
pub uninterp spec fn trimmed_of(s: Seq<char>) -> Seq<char>;

/// The UTF-8 bytes of a character sequence.
pub open spec fn utf8(s: Seq<char>) -> Seq<u8> {
    encode_utf8(s)
}

/// Relies on `str::to_lowercase`: the result is determined by the characters alone.
#[verifier::external_body]
pub(crate) fn to_lower(s: &str) -> (r: String)
    ensures
        r@ == lower_of(s@),
{
    s.to_lowercase()
}

/// Relies on `String::from_utf8`: it succeeds exactly on valid UTF-8 and then
/// holds the decoded characters.
#[verifier::external_body]
pub(crate) fn from_utf8(b: Vec<u8>) -> (r: Option<String>)
    ensures
        r is Some <==> valid_utf8(b@),
        r is Some ==> r->0@ == decode_utf8(b@),
{
    String::from_utf8(b).ok()
}

/// Relies on `str::trim`: the result is determined by the characters alone.
#[verifier::external_body]
pub(crate) fn trim(s: &str) -> (r: String)
    ensures
        r@ == trimmed_of(s@),
{
    s.trim().to_owned()
}

/// Relies on `String::push_str`: appends the characters of `t`.
#[verifier::external_body]
pub(crate) fn push_str(s: &mut String, t: &str)
    ensures
        final(s)@ == old(s)@ + t@,
{
    s.push_str(t)
}

/// The text with every two-character escape `\n` turned into a line break,
/// scanning left to right.
pub open spec fn unescape_newlines(s: Seq<char>) -> Seq<char>
    decreases s.len(),
{
    if s.len() < 2 {
        s
    } else if s[0] == '\\' && s[1] == 'n' {
        seq!['\n'] + unescape_newlines(s.skip(2))
    } else {
        seq![s[0]] + unescape_newlines(s.skip(1))
    }
}

/// Relies on `str::replace`, which replaces non-overlapping matches from left to right.
#[verifier::external_body]
pub(crate) fn replace_escaped_newlines(s: &str) -> (r: String)
    ensures
        r@ == unescape_newlines(s@),
{
    s.replace("\\n", "\n")
}

/// The pieces of `s` between occurrences of `c` (one piece when there is none).
pub open spec fn split_chars(s: Seq<char>, c: char) -> Seq<Seq<char>>
    decreases s.len(),
{
    if s.len() == 0 {
        seq![seq![]]
    } else {
        let rest = split_chars(s.drop_first(), c);
        if s[0] == c {
            seq![seq![]] + rest
        } else {
            rest.update(0, seq![s[0]] + rest[0])
        }
    }
}

/// Relies on `str::split` with a character: the pieces between the separators, in order.
#[verifier::external_body]
pub(crate) fn split_on(s: &str, c: char) -> (r: Vec<String>)
    ensures
        r@.map_values(|p: String| p@) == split_chars(s@, c),
{
    let mut v: Vec<String> = Vec::new();
    for p in s.split(c) {
        v.push(p.to_owned());
    }
    v
}

/// `p` begins `s`.
pub open spec fn has_prefix(s: Seq<char>, p: Seq<char>) -> bool {
    p.len() <= s.len() && s.subrange(0, p.len() as int) == p
}

/// Relies on `str::strip_prefix`: the rest of `s` when it begins with `p`.
#[verifier::external_body]
pub(crate) fn strip_prefix(s: &str, p: &str) -> (r: Option<String>)
    ensures
        r is Some <==> has_prefix(s@, p@),
        r is Some ==> r->0@ == s@.subrange(p@.len() as int, s@.len() as int),
{
    match s.strip_prefix(p) {
        Some(rest) => Some(rest.to_owned()),
        None => None,
    }
}

/// What `str::lines` yields for a text.
pub uninterp spec fn lines_of(s: Seq<char>) -> Seq<Seq<char>>;

/// Relies on `str::lines`: the lines of a text, without their line endings.
#[verifier::external_body]
pub(crate) fn text_lines(s: &str) -> (r: Vec<String>)
    ensures
        r@.map_values(|l: String| l@) == lines_of(s@),
{
    let mut v: Vec<String> = Vec::new();
    for l in s.lines() {
        v.push(l.to_owned());
    }
    v
}

/// The number of characters of `s` from `i` up to the first `c` (or the end).
pub open spec fn char_run(s: Seq<char>, c: char, i: int) -> nat
    decreases s.len() - i,
{
    if i < 0 || i >= s.len() || s[i] == c {
        0
    } else {
        1 + char_run(s, c, i + 1)
    }
}

/// The text holds a tab.
pub open spec fn has_tab(s: Seq<char>) -> bool {
    char_run(s, '\t', 0) < s.len()
}

/// The text before the first tab.
pub open spec fn before_tab(s: Seq<char>) -> Seq<char> {
    s.subrange(0, char_run(s, '\t', 0) as int)
}

/// The text after the first tab.
pub open spec fn after_tab(s: Seq<char>) -> Seq<char> {
    s.subrange(char_run(s, '\t', 0) as int + 1, s.len() as int)
}

/// Relies on `str::split_once`: the text before and after the first tab.
#[verifier::external_body]
pub(crate) fn split_at_tab(s: &str) -> (r: Option<(String, String)>)
    ensures
        r is Some <==> has_tab(s@),
        match r {
            Some((a, b)) => a@ == before_tab(s@) && b@ == after_tab(s@),
            None => true,
        },
{
    match s.split_once('\t') {
        Some((a, b)) => Some((a.to_owned(), b.to_owned())),
        None => None,
    }
}

/// Whether a string has no characters.
pub fn is_empty_text(s: &str) -> (r: bool)
    ensures
        r == (s@.len() == 0),
{
    proof {
        encode_utf8_decode_utf8(s@);
    }
    s.as_bytes().len() == 0
}

/// The characters of a string, in order.
pub fn chars_vec(s: &str) -> (r: Vec<char>)
    ensures
        r@ == s@,
{
    let mut v: Vec<char> = Vec::new();
    let mut it = s.chars();
    let ghost all = s@;
    assert(it.remaining() == all);
    loop
        invariant_except_break
            it.obeys_prophetic_iter_laws(),
            v@ + it.remaining() == all,
            it.decrease() is Some,
        ensures
            v@ == all,
        decreases it.decrease()->0,
    {
        match it.next() {
            Some(c) => {
                v.push(c);
            },
            None => {
                break;
            },
        }
    }
    v
}

} // verus!
