//! The index of an archive: records of a NUL-terminated headword followed by
//! its content offset and length as big-endian integers of 4 or 8 bytes.
use vstd::prelude::*;
use vstd::utf8::*;
use crate::bytes::{append_bytes, copy_range, find_byte, lemma_run_len_prefix, run_len};
use crate::error::ArchiveError;
use crate::metadata::Version;
use crate::text::{from_utf8, utf8};

verus! {

/// One index record: a headword and the span of its content.
#[derive(Debug, Clone)]
pub struct IndexEntry {
    pub word: String,
    pub offset: u64,
    pub size: u64,
}

impl View for IndexEntry {
    type V = (Seq<char>, nat, nat);

    open spec fn view(&self) -> (Seq<char>, nat, nat) {
        (self.word@, self.offset as nat, self.size as nat)
    }
}

pub open spec fn entries_view(es: Seq<IndexEntry>) -> Seq<(Seq<char>, nat, nat)> {
    es.map_values(|e: IndexEntry| e@)
}

/// The byte width of the index integers under a version.
pub open spec fn width(v: Version) -> nat {
    match v {
        Version::V242 => 4,
        Version::V300 => 8,
        Version::Unknown => 0,
    }
}

/// `256` to the power `k`.
pub open spec fn pow256(k: nat) -> nat
    decreases k,
{
    if k == 0 {
        1
    } else {
        256 * pow256((k - 1) as nat)
    }
}

/// The value of big-endian bytes.
pub open spec fn be_value(b: Seq<u8>) -> nat
    decreases b.len(),
{
    if b.len() == 0 {
        0
    } else {
        be_value(b.drop_last()) * 256 + b.last() as nat
    }
}

/// The `w` big-endian bytes of `v` (of `v` modulo `256^w`).
pub open spec fn be_bytes(v: nat, w: nat) -> Seq<u8>
    decreases w,
{
    if w == 0 {
        seq![]
    } else {
        be_bytes(v / 256, (w - 1) as nat).push((v % 256) as u8)
    }
}

/// The bytes of every well-formed UTF-8 character of `b`, in order: a byte
/// that begins no well-formed character is dropped.
pub open spec fn keep_valid(b: Seq<u8>) -> Seq<u8>
    decreases b.len(),
{
    if b.len() == 0 {
        seq![]
    } else if valid_first_scalar(b) {
        take_first_scalar(b) + keep_valid(pop_first_scalar(b))
    } else {
        keep_valid(b.drop_first())
    }
}

/// The headword stored as `raw`: its well-formed characters, U+FFFD
/// included; `None` when there is none.
pub open spec fn headword_of(raw: Seq<u8>) -> Option<Seq<char>> {
    let k = keep_valid(raw);
    if k.len() > 0 {
        Some(decode_utf8(k))
    } else {
        None
    }
}

proof fn lemma_keep_valid_valid(b: Seq<u8>)
    ensures
        valid_utf8(keep_valid(b)),
    decreases b.len(),
{
    if b.len() > 0 {
        if valid_first_scalar(b) {
            lemma_keep_valid_valid(pop_first_scalar(b));
            let t = take_first_scalar(b);
            assert(valid_first_scalar(t));
            assert(pop_first_scalar(t) =~= Seq::<u8>::empty());
            assert(valid_utf8(pop_first_scalar(t)));
            assert(valid_utf8(t)) by {
                reveal_with_fuel(valid_utf8, 2);
            }
            valid_utf8_concat(t, keep_valid(pop_first_scalar(b)));
        } else {
            lemma_keep_valid_valid(b.drop_first());
        }
    }
}

/// Well-formed UTF-8 keeps all its bytes.
pub proof fn lemma_keep_valid_of_valid(b: Seq<u8>)
    requires
        valid_utf8(b),
    ensures
        keep_valid(b) == b,
    decreases b.len(),
{
    if b.len() > 0 {
        lemma_keep_valid_of_valid(pop_first_scalar(b));
        assert(take_first_scalar(b) + pop_first_scalar(b) =~= b);
    }
}

/// The length of the well-formed character that starts at `b[i]`, or 0.
fn first_scalar_len(b: &[u8], i: usize) -> (r: usize)
    requires
        i < b@.len(),
    ensures
        r > 0 <==> valid_first_scalar(b@.skip(i as int)),
        r > 0 ==> r == length_of_first_scalar(b@.skip(i as int)),
{
    let ghost s = b@.skip(i as int);
    let n = b.len() - i;
    let b0 = b[i];
    assert(s[0] == b0);
    if b0 <= 0x7f {
        assert(((b0 & 0x7f) as u32) <= 0x7f) by (bit_vector);
        return 1;
    }
    if b0 < 0xc0 || b0 > 0xf7 {
        return 0;
    }
    if n < 2 {
        return 0;
    }
    let b1 = b[i + 1];
    assert(s[1] == b1);
    if b1 < 0x80 || b1 > 0xbf {
        return 0;
    }
    if b0 <= 0xdf {
        let cp: u32 = (((b0 & 0x1f) as u32) << 6) | ((b1 & 0x3f) as u32);
        assert(cp == decode_first_codepoint(s));
        assert((((b0 & 0x1f) as u32) << 6) | ((b1 & 0x3f) as u32) <= 0x7ff) by (bit_vector);
        if cp >= 0x80 {
            return 2;
        } else {
            return 0;
        }
    }
    if n < 3 {
        return 0;
    }
    let b2 = b[i + 2];
    assert(s[2] == b2);
    if b2 < 0x80 || b2 > 0xbf {
        return 0;
    }
    if b0 <= 0xef {
        let cp: u32 = (((b0 & 0x0f) as u32) << 12) | (((b1 & 0x3f) as u32) << 6) | ((b2 & 0x3f) as u32);
        assert(cp == decode_first_codepoint(s));
        if cp >= 0x800 && !(0xd800 <= cp && cp <= 0xdfff) {
            return 3;
        } else {
            return 0;
        }
    }
    if n < 4 {
        return 0;
    }
    let b3 = b[i + 3];
    assert(s[3] == b3);
    if b3 < 0x80 || b3 > 0xbf {
        return 0;
    }
    let cp: u32 = (((b0 & 0x07) as u32) << 18) | (((b1 & 0x3f) as u32) << 12) | (((b2 & 0x3f) as u32) << 6) | ((
    b3 & 0x3f) as u32);
    assert(cp == decode_first_codepoint(s));
    if cp >= 0x10000 && cp <= 0x10ffff {
        return 4;
    } else {
        return 0;
    }
}

/// The records of `b` from position `p` on; `None` when a record is cut short.
pub open spec fn decode_from(b: Seq<u8>, p: int, w: nat) -> Option<Seq<(Seq<char>, nat, nat)>>
    decreases b.len() - p,
{
    if p < 0 || p >= b.len() {
        Some(seq![])
    } else {
        let z = p + run_len(b, 0, p);
        let a = if z < b.len() {
            z + 1
        } else {
            z
        };
        if a + 2 * w > b.len() {
            None
        } else {
            match decode_from(b, a + 2 * w, w) {
                None => None,
                Some(rest) => Some(
                    match headword_of(b.subrange(p, z)) {
                        Some(h) => seq![
                            (h, be_value(b.subrange(a, a + w)), be_value(b.subrange(a + w, a + 2 * w)))
                        ] + rest,
                        None => rest,
                    },
                ),
            }
        }
    }
}

pub open spec fn decode_spec(b: Seq<u8>, v: Version) -> Option<Seq<(Seq<char>, nat, nat)>> {
    decode_from(b, 0, width(v))
}

/// The bytes of one record.
pub open spec fn record_bytes(e: (Seq<char>, nat, nat), w: nat) -> Seq<u8> {
    utf8(e.0) + seq![0u8] + be_bytes(e.1, w) + be_bytes(e.2, w)
}

/// The bytes of the first `i` records.
pub open spec fn encode_upto(es: Seq<(Seq<char>, nat, nat)>, w: nat, i: int) -> Seq<u8>
    decreases i,
{
    if i <= 0 || i > es.len() {
        seq![]
    } else {
        encode_upto(es, w, i - 1) + record_bytes(es[i - 1], w)
    }
}

pub open spec fn encode_spec(es: Seq<(Seq<char>, nat, nat)>, v: Version) -> Seq<u8> {
    encode_upto(es, width(v), es.len() as int)
}

proof fn lemma_be_bound(b: Seq<u8>)
    ensures
        be_value(b) < pow256(b.len()),
    decreases b.len(),
{
    if b.len() > 0 {
        lemma_be_bound(b.drop_last());
        let v = be_value(b.drop_last());
        let p = pow256(b.drop_last().len());
        assert(v * 256 + b.last() < 256 * p) by (nonlinear_arith)
            requires v < p, b.last() < 256;
    }
}

proof fn lemma_pow256_8()
    ensures
        pow256(4) == 0x1_0000_0000,
        pow256(8) == 0x1_0000_0000_0000_0000,
{
    assert(pow256(0) == 1);
    assert(pow256(1) == 256);
    assert(pow256(2) == 256 * 256);
    assert(pow256(3) == 256 * 256 * 256);
    assert(pow256(4) == 256 * 256 * 256 * 256);
    assert(pow256(5) == 256 * pow256(4));
    assert(pow256(6) == 256 * pow256(5));
    assert(pow256(7) == 256 * pow256(6));
    assert(pow256(8) == 256 * pow256(7));
}

/// The big-endian value of `b[start..start + w]`.
fn read_be(b: &[u8], start: usize, w: usize) -> (r: u64)
    requires
        w <= 8,
        start + w <= b@.len(),
    ensures
        r as nat == be_value(b@.subrange(start as int, start + w)),
{
    let mut v: u64 = 0;
    let mut i: usize = 0;
    let n = b.len();
    while i < w
        invariant
            n == b@.len(),
            i <= w <= 8,
            start + w <= b@.len(),
            v as nat == be_value(b@.subrange(start as int, start + i)),
        decreases w - i,
    {
        let ghost s = b@.subrange(start as int, start + i + 1);
        proof {
            assert(s.drop_last() =~= b@.subrange(start as int, start + i));
            lemma_be_bound(s);
            lemma_pow256_8();
            lemma_pow256_mono(s.len(), 8);
            assert(s.last() == b@[start + i]);
            assert(be_value(s) == v * 256 + b@[start + i]);
            assert(s.len() == i + 1);
            assert(be_value(s) < pow256(8));
            assert(v * 256 + b@[start + i] < 0x1_0000_0000_0000_0000);
        }
        let byte = b[start + i] as u64;
        let shifted = v * 256;
        v = shifted + byte;
        i = i + 1;
    }
    v
}

proof fn lemma_pow256_mono(a: nat, b: nat)
    requires
        a <= b,
    ensures
        pow256(a) <= pow256(b),
    decreases b,
{
    if a < b {
        lemma_pow256_mono(a, (b - 1) as nat);
    }
}

/// The headword stored as `raw`: its well-formed characters, in order.
fn headword_from_raw(raw: &[u8]) -> (r: Option<String>)
    ensures
        r is Some <==> headword_of(raw@) is Some,
        r is Some ==> r->0@ == headword_of(raw@)->0,
{
    let mut out: Vec<u8> = Vec::new();
    let mut i: usize = 0;
    assert(raw@.skip(0) =~= raw@);
    while i < raw.len()
        invariant
            i <= raw@.len(),
            out@ + keep_valid(raw@.skip(i as int)) == keep_valid(raw@),
        decreases raw@.len() - i,
    {
        let ghost s = raw@.skip(i as int);
        let l = first_scalar_len(raw, i);
        if l > 0 {
            let ghost before = out@;
            let piece = copy_range(raw, i, i + l);
            append_bytes(&mut out, piece.as_slice());
            proof {
                assert(piece@ =~= take_first_scalar(s));
                assert(pop_first_scalar(s) =~= raw@.skip(i + l));
                assert(out@ + keep_valid(raw@.skip(i + l)) =~= before + (take_first_scalar(s) + keep_valid(pop_first_scalar(s))));
            }
            i = i + l;
        } else {
            assert(s.drop_first() =~= raw@.skip(i + 1));
            i = i + 1;
        }
    }
    assert(raw@.skip(i as int) =~= Seq::<u8>::empty());
    assert(out@ =~= keep_valid(raw@));
    proof {
        lemma_keep_valid_valid(raw@);
    }
    if out.len() == 0 {
        return None;
    }
    from_utf8(out)
}

pub open spec fn prepend<T>(s: Seq<T>, o: Option<Seq<T>>) -> Option<Seq<T>> {
    match o {
        None => None,
        Some(r) => Some(s + r),
    }
}

/// Decodes an index under a version. Records whose headword is empty once
/// invalid UTF-8 is dropped are left out.
pub fn decode_index(b: &[u8], version: Version) -> (r: Result<Vec<IndexEntry>, ArchiveError>)
    ensures
        version == Version::Unknown ==> r is Err && r->Err_0 is UnsupportedVersion,
        version != Version::Unknown ==> (r is Ok <==> decode_spec(b@, version) is Some),
        version != Version::Unknown && r is Err ==> r->Err_0 is IndexParse,
        r is Ok ==> entries_view(r->Ok_0@) == decode_spec(b@, version)->0,
{
    let w: usize = match version {
        Version::V242 => 4,
        Version::V300 => 8,
        Version::Unknown => {
            return Err(ArchiveError::UnsupportedVersion);
        },
    };
    let mut items: Vec<IndexEntry> = Vec::new();
    let mut p: usize = 0;
    while p < b.len()
        invariant
            w == width(version),
            w == 4 || w == 8,
            p <= b@.len(),
            decode_spec(b@, version) == prepend(entries_view(items@), decode_from(b@, p as int, w as nat)),
        decreases b@.len() - p,
    {
        let z = find_byte(b, 0, p);
        let a = if z < b.len() {
            z + 1
        } else {
            z
        };
        if a > b.len() || b.len() - a < 2 * w {
            return Err(ArchiveError::IndexParse);
        }
        let offset = read_be(b, a, w);
        let size = read_be(b, a + w, w);
        let raw = copy_range(b, p, z);
        let ghost before = entries_view(items@);
        match headword_from_raw(raw.as_slice()) {
            Some(word) => {
                let e = IndexEntry { word, offset, size };
                items.push(e);
                proof {
                    assert(entries_view(items@) =~= before.push(e@));
                    assert(before.push(e@) =~= before + seq![e@]);
                }
            },
            None => {},
        }
        proof {
            let rest = decode_from(b@, a + 2 * w, w as nat);
            assert(b@.subrange(a + w, a + w + w) == b@.subrange(a + w, a + 2 * w));
            if rest is Some {
                assert(before + (seq![(headword_of(raw@)->0, offset as nat, size as nat)] + rest->0)
                    =~= (before + seq![(headword_of(raw@)->0, offset as nat, size as nat)]) + rest->0);
            }
        }
        p = a + 2 * w;
    }
    proof {
        assert(entries_view(items@) + seq![] =~= entries_view(items@));
    }
    Ok(items)
}

/// Appends the `w` big-endian bytes of `v`.
fn write_be(out: &mut Vec<u8>, v: u64, w: usize)
    ensures
        final(out)@ == old(out)@ + be_bytes(v as nat, w as nat),
    decreases w,
{
    if w > 0 {
        write_be(out, v / 256, w - 1);
        out.push((v % 256) as u8);
        assert(final(out)@ =~= old(out)@ + be_bytes(v as nat, w as nat));
    } else {
        assert(final(out)@ =~= old(out)@ + be_bytes(v as nat, w as nat));
    }
}

/// Encodes records under a version, in the order given. The caller sorts them.
pub fn encode_index(entries: &Vec<IndexEntry>, version: Version) -> (r: Vec<u8>)
    requires
        version != Version::Unknown,
    ensures
        r@ == encode_spec(entries_view(entries@), version),
{
    let w: usize = if version == Version::V242 {
        4
    } else {
        8
    };
    let ghost es = entries_view(entries@);
    let mut out: Vec<u8> = Vec::new();
    let mut i: usize = 0;
    while i < entries.len()
        invariant
            w == width(version),
            i <= entries@.len(),
            es == entries_view(entries@),
            out@ == encode_upto(es, w as nat, i as int),
        decreases entries@.len() - i,
    {
        let e = &entries[i];
        append_bytes(&mut out, e.word.as_str().as_bytes());
        out.push(0u8);
        write_be(&mut out, e.offset, w);
        write_be(&mut out, e.size, w);
        i = i + 1;
        assert(out@ =~= encode_upto(es, w as nat, i as int));
    }
    out
}

/// A record the index format can hold: a non-empty headword without NUL, and
/// integers below `256^w`.
pub open spec fn encodable(e: (Seq<char>, nat, nat), w: nat) -> bool {
    &&& e.0.len() > 0
    &&& forall|k: int| 0 <= k < utf8(e.0).len() ==> #[trigger] utf8(e.0)[k] != 0
    &&& e.1 < pow256(w)
    &&& e.2 < pow256(w)
}

proof fn lemma_be_round_trip(v: nat, w: nat)
    requires
        v < pow256(w),
    ensures
        be_bytes(v, w).len() == w,
        be_value(be_bytes(v, w)) == v,
    decreases w,
{
    if w > 0 {
        let q = v / 256;
        assert(q < pow256((w - 1) as nat)) by (nonlinear_arith)
            requires v < 256 * pow256((w - 1) as nat), q == v / 256;
        lemma_be_round_trip(q, (w - 1) as nat);
        let b = be_bytes(v, w);
        assert(b.drop_last() =~= be_bytes(q, (w - 1) as nat));
        assert(q * 256 + v % 256 == v) by (nonlinear_arith)
            requires q == v / 256;
    }
}

proof fn lemma_encode_prefix(es: Seq<(Seq<char>, nat, nat)>, w: nat, i: int, j: int)
    requires
        0 <= i <= j <= es.len(),
    ensures
        encode_upto(es, w, i).len() <= encode_upto(es, w, j).len(),
        encode_upto(es, w, j).subrange(0, encode_upto(es, w, i).len() as int) == encode_upto(es, w, i),
    decreases j,
{
    if i < j {
        lemma_encode_prefix(es, w, i, j - 1);
        let a = encode_upto(es, w, j - 1);
        assert(encode_upto(es, w, j) == a + record_bytes(es[j - 1], w));
        assert(encode_upto(es, w, j).subrange(0, encode_upto(es, w, i).len() as int) =~= a.subrange(0, encode_upto(es, w, i).len() as int));
    } else {
        assert(encode_upto(es, w, j).subrange(0, encode_upto(es, w, i).len() as int) =~= encode_upto(es, w, i));
    }
}

/// Decoding at the start of an encoded record reads that record.
proof fn lemma_decode_record(b: Seq<u8>, p: int, e: (Seq<char>, nat, nat), w: nat)
    requires
        0 <= p,
        w > 0,
        encodable(e, w),
        p + record_bytes(e, w).len() <= b.len(),
        b.subrange(p, p + record_bytes(e, w).len()) == record_bytes(e, w),
    ensures
        decode_from(b, p, w) == prepend(seq![e], decode_from(b, p + record_bytes(e, w).len(), w)),
{
    let r = record_bytes(e, w);
    let word = utf8(e.0);
    let n = word.len() as int;
    lemma_be_round_trip(e.1, w);
    lemma_be_round_trip(e.2, w);
    assert(r =~= word + seq![0u8] + be_bytes(e.1, w) + be_bytes(e.2, w));
    assert forall|k: int| p <= k < p + n implies b[k] != 0 by {
        assert(b[k] == b.subrange(p, p + r.len())[k - p]);
        assert(r[k - p] == word[k - p]);
    }
    assert(b[p + n] == r[n]);
    lemma_run_len_prefix(b, 0, p, n);
    let z = p + n;
    let a = z + 1;
    assert(b.subrange(p, z) =~= word) by {
        assert forall|k: int| 0 <= k < n implies b.subrange(p, z)[k] == word[k] by {
            assert(b[p + k] == r[k]);
        }
    }
    assert(b.subrange(a, a + w) =~= be_bytes(e.1, w)) by {
        assert forall|k: int| 0 <= k < w implies b.subrange(a, a + w)[k] == be_bytes(e.1, w)[k] by {
            assert(b[a + k] == r[n + 1 + k]);
        }
    }
    assert(b.subrange(a + w, a + 2 * w) =~= be_bytes(e.2, w)) by {
        assert forall|k: int| 0 <= k < w implies b.subrange(a + w, a + 2 * w)[k] == be_bytes(e.2, w)[k] by {
            assert(b[a + w + k] == r[n + 1 + w + k]);
        }
    }
    encode_utf8_valid_utf8(e.0);
    encode_utf8_decode_utf8(e.0);
    lemma_keep_valid_of_valid(word);
    assert(headword_of(word) == Some(e.0));
    assert(a + 2 * w == p + r.len());
    let rest = decode_from(b, a + 2 * w, w);
    if rest is Some {
        assert(seq![(e.0, be_value(b.subrange(a, a + w)), be_value(b.subrange(a + w, a + 2 * w)))] + rest->0
            == seq![e] + rest->0);
    }
}

/// Encoding records under a version and decoding the bytes under the same
/// version gives the records back, when each is one the format can hold.
pub proof fn lemma_index_round_trip(es: Seq<(Seq<char>, nat, nat)>, v: Version)
    requires
        v != Version::Unknown,
        forall|i: int| 0 <= i < es.len() ==> encodable(#[trigger] es[i], width(v)),
    ensures
        decode_spec(encode_spec(es, v), v) == Some(es),
{
    let w = width(v);
    let n = es.len() as int;
    let b = encode_upto(es, w, n);
    assert forall|i: int| 0 <= i <= n implies decode_from(b, encode_upto(es, w, i).len() as int, w) == Some(
        #[trigger] es.subrange(i, n),
    ) by {
        lemma_decode_suffix(es, w, i);
    }
    assert(encode_upto(es, w, 0) =~= Seq::<u8>::empty());
    assert(es.subrange(0, n) =~= es);
}

proof fn lemma_decode_suffix(es: Seq<(Seq<char>, nat, nat)>, w: nat, i: int)
    requires
        0 <= i <= es.len(),
        w > 0,
        forall|k: int| 0 <= k < es.len() ==> encodable(#[trigger] es[k], w),
    ensures
        decode_from(encode_upto(es, w, es.len() as int), encode_upto(es, w, i).len() as int, w) == Some(
            es.subrange(i, es.len() as int),
        ),
    decreases es.len() - i,
{
    let n = es.len() as int;
    let b = encode_upto(es, w, n);
    lemma_encode_prefix(es, w, i, n);
    if i == n {
        assert(es.subrange(n, n) =~= Seq::<(Seq<char>, nat, nat)>::empty());
    } else {
        lemma_decode_suffix(es, w, i + 1);
        lemma_encode_prefix(es, w, i + 1, n);
        let p = encode_upto(es, w, i).len() as int;
        let r = record_bytes(es[i], w);
        assert(encode_upto(es, w, i + 1) == encode_upto(es, w, i) + r);
        assert(b.subrange(p, p + r.len()) =~= r) by {
            assert forall|k: int| 0 <= k < r.len() implies b.subrange(p, p + r.len())[k] == r[k] by {
                assert(b[p + k] == b.subrange(0, p + r.len())[p + k]);
            }
        }
        lemma_decode_record(b, p, es[i], w);
        assert(seq![es[i]] + es.subrange(i + 1, n) =~= es.subrange(i, n));
    }
}

} // verus!
