//! Classifying a query.
use vstd::prelude::*;
use crate::text::chars_vec;

verus! {

/// An ASCII letter or digit, or ASCII whitespace (space, tab, line feed, form feed, carriage return).
pub open spec fn is_en_char(c: char) -> bool {
    ('0' <= c && c <= '9') || ('a' <= c && c <= 'z') || ('A' <= c && c <= 'Z') || c == ' ' || c == '\t'
        || c == '\n' || c == '\x0C' || c == '\r'
}

/// Is the word English: only ASCII letters, digits and whitespace?
pub fn is_enword(word: &str) -> (r: bool)
    ensures
        r == (forall|i: int| 0 <= i < word@.len() ==> is_en_char(#[trigger] word@[i])),
{
    let cs = chars_vec(word);
    let mut i: usize = 0;
    while i < cs.len()
        invariant
            i <= cs@.len(),
            cs@ == word@,
            forall|k: int| 0 <= k < i ==> is_en_char(#[trigger] word@[k]),
        decreases cs@.len() - i,
    {
        let c = cs[i];
        if !(('0' <= c && c <= '9') || ('a' <= c && c <= 'z') || ('A' <= c && c <= 'Z') || c == ' ' || c == '\t'
            || c == '\n' || c == '\x0C' || c == '\r') {
            assert(!is_en_char(word@[i as int]));
            return false;
        }
        i = i + 1;
    }
    true
}

} // verus!
