//! Byte-wise lexicographic order and the headword order of the index:
//! case-insensitive first, exact bytes to break ties.
use vstd::prelude::*;
use crate::text::{lower_of, to_lower, utf8};

verus! {

/// `a` comes strictly before `b` in byte-wise lexicographic order.
pub open spec fn lex_lt(a: Seq<u8>, b: Seq<u8>) -> bool
    decreases a.len(),
{
    if a.len() == 0 {
        b.len() > 0
    } else if b.len() == 0 {
        false
    } else if a[0] != b[0] {
        a[0] < b[0]
    } else {
        lex_lt(a.drop_first(), b.drop_first())
    }
}

/// The case-insensitive key of a headword: the bytes of its lowercase form.
pub open spec fn fold_key(w: Seq<char>) -> Seq<u8> {
    utf8(lower_of(w))
}

/// The index order: by case-insensitive key, then by the exact bytes.
pub open spec fn headword_lt(a: Seq<char>, b: Seq<char>) -> bool {
    lex_lt(fold_key(a), fold_key(b)) || (fold_key(a) == fold_key(b) && lex_lt(utf8(a), utf8(b)))
}

pub proof fn lemma_lex_skip(a: Seq<u8>, b: Seq<u8>, i: int)
    requires
        0 <= i <= a.len(),
        i <= b.len(),
        a.subrange(0, i) == b.subrange(0, i),
    ensures
        lex_lt(a, b) == lex_lt(a.skip(i), b.skip(i)),
    decreases i,
{
    if i > 0 {
        assert(a[0] == a.subrange(0, i)[0]);
        assert(b[0] == b.subrange(0, i)[0]);
        assert(a.drop_first().subrange(0, i - 1) =~= a.subrange(0, i).drop_first());
        assert(b.drop_first().subrange(0, i - 1) =~= b.subrange(0, i).drop_first());
        lemma_lex_skip(a.drop_first(), b.drop_first(), i - 1);
        assert(a.drop_first().skip(i - 1) =~= a.skip(i));
        assert(b.drop_first().skip(i - 1) =~= b.skip(i));
    } else {
        assert(a.skip(0) =~= a);
        assert(b.skip(0) =~= b);
    }
}

/// Exactly one of `a < b`, `a == b`, `b < a` holds.
pub proof fn lemma_lex_total(a: Seq<u8>, b: Seq<u8>)
    ensures
        lex_lt(a, b) || a == b || lex_lt(b, a),
        !(lex_lt(a, b) && lex_lt(b, a)),
        !lex_lt(a, a),
    decreases a.len(),
{
    if a.len() > 0 && b.len() > 0 {
        lemma_lex_total(a.drop_first(), b.drop_first());
        if a[0] == b[0] && a.drop_first() == b.drop_first() {
            assert(a =~= seq![a[0]] + a.drop_first());
            assert(b =~= seq![b[0]] + b.drop_first());
        }
    } else if a.len() > 0 {
    } else if b.len() > 0 {
    } else {
        assert(a =~= b);
    }
    if a.len() > 0 {
        lemma_lex_total(a.drop_first(), a.drop_first());
    }
}

pub proof fn lemma_lex_trans(a: Seq<u8>, b: Seq<u8>, c: Seq<u8>)
    requires
        lex_lt(a, b),
        lex_lt(b, c),
    ensures
        lex_lt(a, c),
    decreases a.len(),
{
    if a.len() > 0 && b.len() > 0 && c.len() > 0 && a[0] == b[0] && b[0] == c[0] {
        lemma_lex_trans(a.drop_first(), b.drop_first(), c.drop_first());
    }
}

pub proof fn lemma_headword_trans(a: Seq<char>, b: Seq<char>, c: Seq<char>)
    requires
        headword_lt(a, b),
        headword_lt(b, c),
    ensures
        headword_lt(a, c),
{
    if lex_lt(fold_key(a), fold_key(b)) && lex_lt(fold_key(b), fold_key(c)) {
        lemma_lex_trans(fold_key(a), fold_key(b), fold_key(c));
    } else if lex_lt(utf8(a), utf8(b)) && lex_lt(utf8(b), utf8(c)) {
        lemma_lex_trans(utf8(a), utf8(b), utf8(c));
    }
}

/// Compares two byte strings lexicographically.
pub fn compare_bytes(a: &[u8], b: &[u8]) -> (r: core::cmp::Ordering)
    ensures
        r == core::cmp::Ordering::Less <==> lex_lt(a@, b@),
        r == core::cmp::Ordering::Equal <==> a@ == b@,
        r == core::cmp::Ordering::Greater <==> lex_lt(b@, a@),
{
    proof {
        lemma_lex_total(a@, b@);
    }
    let mut i: usize = 0;
    while i < a.len() && i < b.len() && a[i] == b[i]
        invariant
            0 <= i <= a@.len(),
            i <= b@.len(),
            a@.subrange(0, i as int) == b@.subrange(0, i as int),
        decreases a@.len() - i,
    {
        assert(a@.subrange(0, i + 1) =~= a@.subrange(0, i as int).push(a@[i as int]));
        assert(b@.subrange(0, i + 1) =~= b@.subrange(0, i as int).push(b@[i as int]));
        i = i + 1;
    }
    proof {
        lemma_lex_skip(a@, b@, i as int);
        lemma_lex_skip(b@, a@, i as int);
    }
    if i < a.len() && i < b.len() {
        assert(a@ != b@);
        if a[i] < b[i] {
            core::cmp::Ordering::Less
        } else {
            core::cmp::Ordering::Greater
        }
    } else if i < a.len() {
        assert(a@.len() != b@.len());
        core::cmp::Ordering::Greater
    } else if i < b.len() {
        assert(a@.len() != b@.len());
        core::cmp::Ordering::Less
    } else {
        assert(a@ =~= a@.subrange(0, i as int));
        assert(b@ =~= b@.subrange(0, i as int));
        core::cmp::Ordering::Equal
    }
}

/// Compares two headwords in the index order.
pub fn compare_headwords(a: &str, b: &str) -> (r: core::cmp::Ordering)
    ensures
        r == core::cmp::Ordering::Less <==> headword_lt(a@, b@),
        r == core::cmp::Ordering::Equal <==> utf8(a@) == utf8(b@),
        r == core::cmp::Ordering::Greater <==> headword_lt(b@, a@),
{
    let la = to_lower(a);
    let lb = to_lower(b);
    proof {
        lemma_lex_total(fold_key(a@), fold_key(b@));
        lemma_lex_total(utf8(a@), utf8(b@));
    }
    match compare_bytes(la.as_str().as_bytes(), lb.as_str().as_bytes()) {
        core::cmp::Ordering::Equal => compare_bytes(a.as_bytes(), b.as_bytes()),
        o => {
            proof {
                if utf8(a@) == utf8(b@) {
                    vstd::utf8::encode_utf8_decode_utf8(a@);
                    vstd::utf8::encode_utf8_decode_utf8(b@);
                }
            }
            o
        },
    }
}

} // verus!
