//! Scanning and number formats on byte strings.
use vstd::prelude::*;

verus! {

/// The number of bytes from position `p` up to the first `c` (or the end).
pub open spec fn run_len(b: Seq<u8>, c: u8, p: int) -> nat
    decreases b.len() - p,
{
    if p < 0 || p >= b.len() || b[p] == c {
        0
    } else {
        1 + run_len(b, c, p + 1)
    }
}

pub proof fn lemma_run_len(b: Seq<u8>, c: u8, p: int)
    requires
        0 <= p <= b.len(),
    ensures
        p + run_len(b, c, p) <= b.len(),
        forall|k: int| p <= k < p + run_len(b, c, p) ==> b[k] != c,
        p + run_len(b, c, p) < b.len() ==> b[p + run_len(b, c, p)] == c,
    decreases b.len() - p,
{
    if p < b.len() && b[p] != c {
        lemma_run_len(b, c, p + 1);
    }
}

/// `run_len` over a sequence made of a part without `c`, then `c`.
pub proof fn lemma_run_len_prefix(b: Seq<u8>, c: u8, p: int, n: int)
    requires
        0 <= p,
        p + n < b.len(),
        0 <= n,
        forall|k: int| p <= k < p + n ==> b[k] != c,
        b[p + n] == c,
    ensures
        run_len(b, c, p) == n,
    decreases n,
{
    if n > 0 {
        lemma_run_len_prefix(b, c, p + 1, n - 1);
    }
}

/// `run_len` over a sequence with no `c` from `p` on.
pub proof fn lemma_run_len_to_end(b: Seq<u8>, c: u8, p: int)
    requires
        0 <= p <= b.len(),
        forall|k: int| p <= k < b.len() ==> b[k] != c,
    ensures
        run_len(b, c, p) == b.len() - p,
    decreases b.len() - p,
{
    if p < b.len() {
        lemma_run_len_to_end(b, c, p + 1);
    }
}

/// The position of the first `c` at or after `p`, or the length.
pub fn find_byte(b: &[u8], c: u8, p: usize) -> (e: usize)
    requires
        p <= b@.len(),
    ensures
        e == p + run_len(b@, c, p as int),
        e <= b@.len(),
{
    proof {
        lemma_run_len(b@, c, p as int);
    }
    let mut e = p;
    while e < b.len() && b[e] != c
        invariant
            p <= e <= b@.len(),
            e + run_len(b@, c, e as int) == p + run_len(b@, c, p as int),
        decreases b@.len() - e,
    {
        e = e + 1;
    }
    e
}

/// A copy of `b[start..end]`.
pub fn copy_range(b: &[u8], start: usize, end: usize) -> (r: Vec<u8>)
    requires
        start <= end <= b@.len(),
    ensures
        r@ == b@.subrange(start as int, end as int),
{
    let mut r: Vec<u8> = Vec::new();
    let mut i = start;
    while i < end
        invariant
            start <= i <= end <= b@.len(),
            r@ == b@.subrange(start as int, i as int),
        decreases end - i,
    {
        r.push(b[i]);
        i = i + 1;
        assert(r@ =~= b@.subrange(start as int, i as int));
    }
    r
}

/// Appends all bytes of `b` to `out`.
pub fn append_bytes(out: &mut Vec<u8>, b: &[u8])
    ensures
        final(out)@ == old(out)@ + b@,
{
    let mut i: usize = 0;
    while i < b.len()
        invariant
            i <= b@.len(),
            out@ == old(out)@ + b@.subrange(0, i as int),
        decreases b@.len() - i,
    {
        out.push(b[i]);
        i = i + 1;
        assert(out@ =~= old(out)@ + b@.subrange(0, i as int));
    }
    assert(b@.subrange(0, b@.len() as int) =~= b@);
}

pub open spec fn is_digit(c: u8) -> bool {
    48 <= c <= 57
}

/// The value of a string of decimal digits.
pub open spec fn digits_value(b: Seq<u8>) -> nat
    decreases b.len(),
{
    if b.len() == 0 {
        0
    } else {
        digits_value(b.drop_last()) * 10 + (b.last() - 48) as nat
    }
}

/// A non-negative decimal integer: an optional `+`, then one or more digits.
pub open spec fn decimal_of(b: Seq<u8>) -> Option<nat> {
    let d = unsigned_part(b);
    if d.len() > 0 && all_digits(d) {
        Some(digits_value(d))
    } else {
        None
    }
}

/// The bytes after an optional leading `+`.
pub open spec fn unsigned_part(b: Seq<u8>) -> Seq<u8> {
    if b.len() > 0 && b[0] == 43 {
        b.drop_first()
    } else {
        b
    }
}

pub open spec fn all_digits(d: Seq<u8>) -> bool {
    forall|i: int| 0 <= i < d.len() ==> is_digit(#[trigger] d[i])
}

/// The shortest decimal digits of `n`.
pub open spec fn decimal_bytes(n: nat) -> Seq<u8>
    decreases n,
{
    if n < 10 {
        seq![(48 + n) as u8]
    } else {
        decimal_bytes(n / 10).push((48 + n % 10) as u8)
    }
}

proof fn lemma_digits_prefix_le(b: Seq<u8>, i: int)
    requires
        0 <= i <= b.len(),
        forall|k: int| 0 <= k < b.len() ==> is_digit(#[trigger] b[k]),
    ensures
        digits_value(b.subrange(0, i)) <= digits_value(b),
    decreases b.len() - i,
{
    if i < b.len() {
        lemma_digits_prefix_le(b, i + 1);
        let s = b.subrange(0, i + 1);
        assert(s.drop_last() =~= b.subrange(0, i));
        assert(digits_value(s) == digits_value(b.subrange(0, i)) * 10 + (s.last() - 48) as nat);
    } else {
        assert(b.subrange(0, i) =~= b);
    }
}

pub proof fn lemma_decimal_round_trip(n: nat)
    ensures
        decimal_of(decimal_bytes(n)) == Some(n),
        forall|k: int| 0 <= k < decimal_bytes(n).len() ==> is_digit(#[trigger] decimal_bytes(n)[k]),
        decimal_bytes(n).len() > 0,
    decreases n,
{
    if n >= 10 {
        lemma_decimal_round_trip(n / 10);
        let d = decimal_bytes(n);
        assert(d.drop_last() =~= decimal_bytes(n / 10));
        assert(forall|k: int| 0 <= k < d.len() - 1 ==> d[k] == decimal_bytes(n / 10)[k]);
        assert(digits_value(decimal_bytes(n / 10)) == n / 10);
        assert(d.last() == (48 + n % 10) as u8);
        assert((n / 10) * 10 + n % 10 == n) by (nonlinear_arith);
        assert(digits_value(d) == n);
    } else {
        let d = decimal_bytes(n);
        assert(d.drop_last() =~= seq![]);
        assert(d.last() == (48 + n) as u8);
        assert(digits_value(d.drop_last()) == 0);
        assert(digits_value(d) == n);
    }
    let d = decimal_bytes(n);
    assert(d[0] != 43);
}

/// Parses a non-negative decimal integer that fits a `usize`.
pub fn parse_decimal(b: &[u8]) -> (r: Option<usize>)
    ensures
        r == (match decimal_of(b@) {
            Some(n) => if n <= usize::MAX {
                Some(n as usize)
            } else {
                None
            },
            None => None,
        }),
{
    let start: usize = if b.len() > 0 && b[0] == 43 {
        1
    } else {
        0
    };
    let ghost d = b@.subrange(start as int, b@.len() as int);
    proof {
        if start == 1 {
            assert(d =~= b@.drop_first());
        } else {
            assert(d =~= b@);
        }
    }
    if start >= b.len() {
        assert(d.len() == 0);
        return None;
    }
    let mut i = start;
    while i < b.len()
        invariant
            start <= i <= b@.len(),
            d == b@.subrange(start as int, b@.len() as int),
            start == (if b@.len() > 0 && b@[0] == 43 { 1usize } else { 0usize }),
            d == unsigned_part(b@),
            forall|k: int| 0 <= k < i - start ==> is_digit(#[trigger] d[k]),
        decreases b@.len() - i,
    {
        if b[i] < 48 || b[i] > 57 {
            assert(!is_digit(d[i - start]));
            assert(!all_digits(d));
            return None;
        }
        i = i + 1;
    }
    let mut v: usize = 0;
    let mut i = start;
    while i < b.len()
        invariant
            start <= i <= b@.len(),
            d == b@.subrange(start as int, b@.len() as int),
            start == (if b@.len() > 0 && b@[0] == 43 { 1usize } else { 0usize }),
            d == unsigned_part(b@),
            forall|k: int| 0 <= k < d.len() ==> is_digit(#[trigger] d[k]),
            v as nat == digits_value(d.subrange(0, i - start)),
        decreases b@.len() - i,
    {
        let ghost s = d.subrange(0, i - start + 1);
        proof {
            assert(s.drop_last() =~= d.subrange(0, i - start));
            assert(s.last() == b@[i as int]);
        }
        let digit = (b[i] - 48) as usize;
        match v.checked_mul(10) {
            Some(t) => match t.checked_add(digit) {
                Some(u) => {
                    v = u;
                },
                None => {
                    proof {
                        lemma_digits_prefix_le(d, i - start + 1);
                        assert(digits_value(s) == v * 10 + digit);
                        assert(decimal_of(b@) == Some(digits_value(d)));
                    }
                    return None;
                },
            },
            None => {
                proof {
                    lemma_digits_prefix_le(d, i - start + 1);
                    assert(digits_value(s) >= v * 10) by (nonlinear_arith)
                        requires digits_value(s) == digits_value(s.drop_last()) * 10 + (s.last() - 48) as nat,
                            digits_value(s.drop_last()) == v;
                    assert(decimal_of(b@) == Some(digits_value(d)));
                }
                return None;
            },
        }
        i = i + 1;
    }
    proof {
        assert(d.subrange(0, d.len() as int) =~= d);
    }
    Some(v)
}

/// Appends the decimal digits of `n`.
pub fn write_decimal(out: &mut Vec<u8>, n: usize)
    ensures
        final(out)@ == old(out)@ + decimal_bytes(n as nat),
    decreases n,
{
    if n >= 10 {
        write_decimal(out, n / 10);
    }
    out.push((48 + n % 10) as u8);
    proof {
        if n < 10 {
            assert(final(out)@ =~= old(out)@ + decimal_bytes(n as nat));
        } else {
            assert(final(out)@ =~= old(out)@ + decimal_bytes(n as nat));
        }
    }
}

} // verus!
