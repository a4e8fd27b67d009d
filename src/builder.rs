//! Building an archive from (headword, content) records: merge or replace
//! records that share a headword, store each distinct content once, and emit
//! the index in headword order.
use vstd::prelude::*;
use vstd::utf8::*;
use crate::bytes::{append_bytes, copy_range};
use crate::content::{span_ok, span_text};
use crate::error::BuildError;
use crate::index::{encode_index, encode_spec, entries_view, IndexEntry};
use crate::metadata::{Ifo, IfoView, Version, empty_view, serialize_spec};
use crate::source::{block_records, block_records_from, lines_view, tabular_records, tabular_records_from};
use crate::order::{compare_headwords, headword_lt, lemma_headword_trans, lemma_lex_total};
use crate::pool::{ContentPool, pool_intern, pool_items, pool_len, pool_new, pool_resolve};
use crate::text::{from_utf8, push_str, utf8};

verus! {

/// A note on input that was skipped, merged or replaced.
#[derive(Debug, Clone)]
pub enum Diagnostic {
    /// A block or line, given here, that has no content.
    NoContent(String),
    /// A block, given by its first line, that names no headword.
    NoHeadword(String),
    /// A headword whose earlier content was replaced.
    Duplicate(String),
}

/// One source record: a headword and its content.
#[derive(Debug, Clone)]
pub struct Record {
    pub word: String,
    pub content: String,
}

/// The content of each headword after the first `k` records: a repeated
/// headword has the new content appended on a new line when `merge` holds,
/// and replacing the old one otherwise.
pub open spec fn fold_records(recs: Seq<(Seq<char>, Seq<char>)>, merge: bool, k: int) -> Map<Seq<char>, Seq<char>>
    decreases k,
{
    if k <= 0 || k > recs.len() {
        Map::empty()
    } else {
        let m = fold_records(recs, merge, k - 1);
        let (w, c) = recs[k - 1];
        if merge && m.contains_key(w) {
            m.insert(w, m[w] + seq!['\n'] + c)
        } else {
            m.insert(w, c)
        }
    }
}

pub open spec fn records_view(rs: Seq<Record>) -> Seq<(Seq<char>, Seq<char>)> {
    rs.map_values(|r: Record| (r.word@, r.content@))
}

/// `sametypesequence`'s value `m`: plain text.
pub open spec fn plain_text_type() -> Seq<char> {
    seq!['m']
}

/// The metadata of a built archive.
pub open spec fn built_meta(name: Seq<char>, count: nat) -> IfoView {
    IfoView {
        version: Version::V242,
        bookname: name,
        wordcount: count,
        sametypesequence: plain_text_type(),
        ..empty_view()
    }
}

/// The headwords are in strict index order.
pub open spec fn strictly_sorted(ws: Seq<Seq<char>>) -> bool {
    forall|i: int, j: int| 0 <= i < j < ws.len() ==> headword_lt(#[trigger] ws[i], #[trigger] ws[j])
}

/// The three parts of a built archive, and what was noted while building it.
#[derive(Debug)]
pub struct BuiltArchive {
    pub ifo: Ifo,
    pub index: Vec<IndexEntry>,
    pub content: String,
    pub diagnostics: Vec<Diagnostic>,
}

pub open spec fn entry_words(es: Seq<(Seq<char>, nat, nat)>) -> Seq<Seq<char>> {
    es.map_values(|e: (Seq<char>, nat, nat)| e.0)
}

/// What a build from `recs` yields: the index holds exactly the headwords of
/// the folded records, in strict order; each span holds its headword's
/// content; equal contents share one span; offsets fit four bytes.
pub open spec fn build_spec(
    recs: Seq<(Seq<char>, Seq<char>)>,
    merge: bool,
    name: Seq<char>,
    ifo: IfoView,
    es: Seq<(Seq<char>, nat, nat)>,
    content: Seq<char>,
) -> bool {
    let m = fold_records(recs, merge, recs.len() as int);
    let c = utf8(content);
    &&& strictly_sorted(entry_words(es))
    &&& forall|w: Seq<char>| m.contains_key(w) <==> exists|i: int| 0 <= i < es.len() && (#[trigger] es[i]).0 == w
    &&& forall|i: int| 0 <= i < es.len() ==> span_ok(c, (#[trigger] es[i]).1 as int, es[i].2 as int)
        && span_text(c, es[i].1 as int, es[i].2 as int) == m[es[i].0]
        && es[i].1 + es[i].2 <= 0xFFFF_FFFF
    &&& forall|i: int, j: int| 0 <= i < es.len() && 0 <= j < es.len() && m[(#[trigger] es[i]).0] == m[(#[trigger] es[j]).0]
        ==> es[i].1 == es[j].1 && es[i].2 == es[j].2
    &&& ifo == built_meta(name, es.len())
}

struct Slot {
    word: String,
    symbol: usize,
}

pub open spec fn no_dups(s: Seq<Seq<char>>) -> bool {
    forall|i: int, j: int| 0 <= i < j < s.len() ==> s[i] != s[j]
}

spec fn slot_words(slots: Seq<Slot>) -> Seq<Seq<char>> {
    slots.map_values(|s: Slot| s.word@)
}

/// The slots hold the map's headwords in order, each with the symbol of its content.
spec fn slots_ok(slots: Seq<Slot>, items: Seq<Seq<char>>, m: Map<Seq<char>, Seq<char>>) -> bool {
    &&& strictly_sorted(slot_words(slots))
    &&& forall|i: int| 0 <= i < slots.len() ==> (#[trigger] slots[i]).symbol < items.len()
        && m.contains_key(slots[i].word@) && items[slots[i].symbol as int] == m[slots[i].word@]
    &&& forall|w: Seq<char>| #[trigger] m.contains_key(w) ==> exists|i: int| 0 <= i < slots.len() && (#[trigger] slots[i]).word@ == w
    &&& no_dups(items)
}

/// The UTF-8 size of the contents of the headwords `ws` in `m`.
pub open spec fn sum_sizes(ws: Seq<Seq<char>>, m: Map<Seq<char>, Seq<char>>) -> nat
    decreases ws.len(),
{
    if ws.len() == 0 {
        0
    } else {
        sum_sizes(ws.drop_last(), m) + utf8(m[ws.last()]).len()
    }
}

/// The UTF-8 size of the first `k` records' contents, one more byte each.
pub open spec fn records_size(recs: Seq<(Seq<char>, Seq<char>)>, k: int) -> nat
    decreases k,
{
    if k <= 0 || k > recs.len() {
        0
    } else {
        records_size(recs, k - 1) + utf8(recs[k - 1].1).len() + 1
    }
}

proof fn lemma_utf8_len_concat(a: Seq<char>, b: Seq<char>)
    ensures
        utf8(a + b).len() == utf8(a).len() + utf8(b).len(),
    decreases a.len(),
{
    if a.len() > 0 {
        lemma_utf8_len_concat(a.drop_first(), b);
        assert((a + b).drop_first() =~= a.drop_first() + b);
        assert((a + b)[0] == a[0]);
    } else {
        assert(a + b =~= b);
    }
}

proof fn lemma_sum_insert(ws: Seq<Seq<char>>, m: Map<Seq<char>, Seq<char>>, k: int, w: Seq<char>)
    requires
        0 <= k <= ws.len(),
    ensures
        sum_sizes(ws.insert(k, w), m) == sum_sizes(ws, m) + utf8(m[w]).len(),
    decreases ws.len(),
{
    if k == ws.len() {
        assert(ws.insert(k, w).drop_last() =~= ws);
    } else {
        lemma_sum_insert(ws.drop_last(), m, k, w);
        assert(ws.insert(k, w).drop_last() =~= ws.drop_last().insert(k, w));
    }
}

proof fn lemma_sum_other_key(ws: Seq<Seq<char>>, m: Map<Seq<char>, Seq<char>>, w: Seq<char>, v: Seq<char>)
    requires
        forall|i: int| 0 <= i < ws.len() ==> ws[i] != w,
    ensures
        sum_sizes(ws, m.insert(w, v)) == sum_sizes(ws, m),
    decreases ws.len(),
{
    if ws.len() > 0 {
        lemma_sum_other_key(ws.drop_last(), m, w, v);
    }
}

proof fn lemma_sum_one_key(ws: Seq<Seq<char>>, m: Map<Seq<char>, Seq<char>>, k: int, v: Seq<char>)
    requires
        0 <= k < ws.len(),
        forall|i: int| 0 <= i < ws.len() && i != k ==> ws[i] != ws[k],
    ensures
        sum_sizes(ws, m.insert(ws[k], v)) + utf8(m[ws[k]]).len() == sum_sizes(ws, m) + utf8(v).len(),
    decreases ws.len(),
{
    let w = ws[k];
    if k == ws.len() - 1 {
        lemma_sum_other_key(ws.drop_last(), m, w, v);
    } else {
        lemma_sum_one_key(ws.drop_last(), m, k, v);
    }
}

proof fn lemma_utf8_injective(a: Seq<char>, b: Seq<char>)
    requires
        utf8(a) == utf8(b),
    ensures
        a == b,
{
    encode_utf8_decode_utf8(a);
    encode_utf8_decode_utf8(b);
}

proof fn lemma_headword_irrefl(a: Seq<char>)
    ensures
        !headword_lt(a, a),
{
    lemma_lex_total(crate::order::fold_key(a), crate::order::fold_key(a));
    lemma_lex_total(utf8(a), utf8(a));
}

/// Interns `s`, keeping the pool free of duplicates.
fn intern(pool: &mut ContentPool, s: &str) -> (r: Result<usize, BuildError>)
    requires
        no_dups(pool_items(*old(pool))),
    ensures
        no_dups(pool_items(*final(pool))),
        r is Ok ==> r->Ok_0 < pool_items(*final(pool)).len() && pool_items(*final(pool))[r->Ok_0 as int] == s@,
        r is Ok ==> pool_items(*final(pool)) == pool_items(*old(pool)) || pool_items(*final(pool)) == pool_items(*old(pool)).push(s@),
        r is Err ==> pool_items(*final(pool)) == pool_items(*old(pool)) && r->Err_0 is TooLarge
            && pool_items(*old(pool)).len() >= 0xFFFF_FFFE,
{
    if pool_len(pool) >= 0xFFFF_FFFE {
        return Err(BuildError::TooLarge);
    }
    let ghost before = pool_items(*pool);
    let r = pool_intern(pool, s);
    proof {
        if !before.contains(s@) {
            let after = pool_items(*pool);
            assert forall|i: int, j: int| 0 <= i < j < after.len() implies after[i] != after[j] by {
                if j == before.len() {
                    assert(after[i] == before[i]);
                    assert(before.contains(before[i]));
                }
            }
        }
    }
    Ok(r)
}

/// Adds one record to the slots.
fn add_record(
    slots: &mut Vec<Slot>,
    pool: &mut ContentPool,
    rec: &Record,
    merge: bool,
    diags: &mut Vec<Diagnostic>,
    Ghost(m): Ghost<Map<Seq<char>, Seq<char>>>,
) -> (r: Result<(), BuildError>)
    requires
        slots_ok(old(slots)@, pool_items(*old(pool)), m),
    ensures
        r is Ok ==> slots_ok(final(slots)@, pool_items(*final(pool)), ({
            if merge && m.contains_key(rec.word@) {
                m.insert(rec.word@, m[rec.word@] + seq!['\n'] + rec.content@)
            } else {
                m.insert(rec.word@, rec.content@)
            }
        })),
        r is Ok ==> sum_sizes(slot_words(final(slots)@), ({
            if merge && m.contains_key(rec.word@) {
                m.insert(rec.word@, m[rec.word@] + seq!['\n'] + rec.content@)
            } else {
                m.insert(rec.word@, rec.content@)
            }
        })) <= sum_sizes(slot_words(old(slots)@), m) + utf8(rec.content@).len() + 1,
        r is Ok ==> pool_items(*final(pool)).len() <= pool_items(*old(pool)).len() + 1,
        r is Err ==> r->Err_0 is TooLarge && pool_items(*old(pool)).len() >= 0xFFFF_FFFE,
{
    let ghost w = rec.word@;
    let ghost items0 = pool_items(*pool);
    let mut lo: usize = 0;
    let mut hi: usize = slots.len();
    while lo < hi
        invariant
            0 <= lo <= hi <= slots@.len(),
            slots@ == old(slots)@,
            w == rec.word@,
            pool_items(*pool) == items0,
            items0 == pool_items(*old(pool)),
            slots_ok(slots@, items0, m),
            forall|i: int| 0 <= i < lo ==> headword_lt((#[trigger] slots@[i]).word@, w),
            forall|i: int| hi <= i < slots@.len() ==> headword_lt(w, (#[trigger] slots@[i]).word@),
        decreases hi - lo,
    {
        let mid = lo + (hi - lo) / 2;
        let c = compare_headwords(slots[mid].word.as_str(), rec.word.as_str());
        match c {
            core::cmp::Ordering::Less => {
                proof {
                    assert forall|i: int| 0 <= i < mid + 1 implies headword_lt((#[trigger] slots@[i]).word@, w) by {
                        if i < mid {
                            assert(slot_words(slots@)[i] == slots@[i].word@);
                            assert(slot_words(slots@)[mid as int] == slots@[mid as int].word@);
                            lemma_headword_trans(slots@[i].word@, slots@[mid as int].word@, w);
                        }
                    }
                }
                lo = mid + 1;
            },
            core::cmp::Ordering::Greater => {
                proof {
                    assert forall|i: int| mid <= i < slots@.len() implies headword_lt(w, (#[trigger] slots@[i]).word@) by {
                        if i > mid {
                            assert(slot_words(slots@)[i] == slots@[i].word@);
                            assert(slot_words(slots@)[mid as int] == slots@[mid as int].word@);
                            lemma_headword_trans(w, slots@[mid as int].word@, slots@[i].word@);
                        }
                    }
                }
                hi = mid;
            },
            core::cmp::Ordering::Equal => {
                proof {
                    lemma_utf8_injective(slots@[mid as int].word@, w);
                }
                let sym = if merge {
                    let mut merged = match pool_resolve(pool, slots[mid].symbol) {
                        Some(s) => s,
                        None => {
                            assert(false);
                            String::new()
                        },
                    };
                    push_str(&mut merged, "\n");
                    push_str(&mut merged, rec.content.as_str());
                    proof {
                        reveal_strlit("\n");
                        assert(merged@ == m[w] + seq!['\n'] + rec.content@);
                    }
                    intern(pool, merged.as_str())?
                } else {
                    diags.push(Diagnostic::Duplicate(rec.word.clone()));
                    intern(pool, rec.content.as_str())?
                };
                let ghost m2 = if merge {
                    m.insert(w, m[w] + seq!['\n'] + rec.content@)
                } else {
                    m.insert(w, rec.content@)
                };
                let ghost old_slots = slots@;
                let word = slots[mid].word.clone();
                slots.set(mid, Slot { word, symbol: sym });
                proof {
                    let items = pool_items(*pool);
                    assert(slot_words(slots@) =~= slot_words(old_slots));
                    assert forall|i: int| 0 <= i < slots@.len() implies (#[trigger] slots@[i]).symbol < items.len()
                        && m2.contains_key(slots@[i].word@) && items[slots@[i].symbol as int] == m2[slots@[i].word@] by {
                        if i != mid {
                            assert(old_slots[i] == slots@[i]);
                            assert(slot_words(old_slots)[i] == old_slots[i].word@);
                            assert(slot_words(old_slots)[mid as int] == old_slots[mid as int].word@);
                            if old_slots[i].word@ == w {
                                if i < mid {
                                    lemma_headword_irrefl(w);
                                } else {
                                    lemma_headword_irrefl(w);
                                }
                            }
                        }
                    }
                    assert forall|x: Seq<char>| #[trigger] m2.contains_key(x) implies exists|i: int| 0 <= i < slots@.len() && (#[trigger] slots@[i]).word@ == x by {
                        if x == w {
                            assert(slots@[mid as int].word@ == x);
                        } else {
                            let i = choose|i: int| 0 <= i < old_slots.len() && (#[trigger] old_slots[i]).word@ == x;
                            assert(slots@[i].word@ == x);
                        }
                    }
                    let ws = slot_words(old_slots);
                    assert forall|i: int| 0 <= i < ws.len() && i != mid implies ws[i] != ws[mid as int] by {
                        assert(ws[i] == old_slots[i].word@);
                        assert(ws[mid as int] == old_slots[mid as int].word@);
                        lemma_headword_irrefl(w);
                    }
                    assert(ws[mid as int] == w);
                    let v = if merge {
                        m[w] + seq!['\n'] + rec.content@
                    } else {
                        rec.content@
                    };
                    lemma_sum_one_key(ws, m, mid as int, v);
                    if merge {
                        lemma_utf8_len_concat(m[w], seq!['\n']);
                        lemma_utf8_len_concat(m[w] + seq!['\n'], rec.content@);
                        assert(utf8(seq!['\n']).len() == 1) by {
                            let nl = seq!['\n'];
                            assert(nl.drop_first() =~= Seq::<char>::empty());
                            assert(nl[0] as u32 == 10);
                            assert(has_width_1_encoding(10u32));
                            assert(encode_scalar(10u32).len() == 1);
                            reveal_with_fuel(encode_utf8, 2);
                        }
                    }
                }
                return Ok(());
            },
        }
    }
    let sym = intern(pool, rec.content.as_str())?;
    let ghost m2 = m.insert(w, rec.content@);
    proof {
        if m.contains_key(w) {
            let i = choose|i: int| 0 <= i < slots@.len() && (#[trigger] slots@[i]).word@ == w;
            if i < lo {
                lemma_headword_irrefl(w);
            } else {
                lemma_headword_irrefl(w);
            }
        }
    }
    let ghost old_slots = slots@;
    slots.insert(lo, Slot { word: rec.word.clone(), symbol: sym });
    proof {
        let items = pool_items(*pool);
        let ws = slot_words(slots@);
        let ows = slot_words(old_slots);
        assert(ws =~= ows.insert(lo as int, w));
        lemma_sum_insert(ows, m2, lo as int, w);
        assert forall|i: int| 0 <= i < ows.len() implies ows[i] != w by {
            assert(ows[i] == old_slots[i].word@);
            lemma_headword_irrefl(w);
        }
        lemma_sum_other_key(ows, m, w, rec.content@);
        assert forall|i: int| 0 <= i < slots@.len() implies (#[trigger] slots@[i]).symbol < items.len()
            && m2.contains_key(slots@[i].word@) && items[slots@[i].symbol as int] == m2[slots@[i].word@] by {
            if i < lo {
                assert(slots@[i] == old_slots[i]);
                assert(old_slots[i].word@ != w) by {
                    lemma_headword_irrefl(w);
                }
            } else if i > lo {
                assert(slots@[i] == old_slots[i - 1]);
                assert(old_slots[i - 1].word@ != w) by {
                    lemma_headword_irrefl(w);
                }
            }
        }
        assert forall|i: int, j: int| 0 <= i < j < ws.len() implies headword_lt(#[trigger] ws[i], #[trigger] ws[j]) by {
            let ows = slot_words(old_slots);
            if j < lo {
                assert(ws[i] == ows[i] && ws[j] == ows[j]);
            } else if i > lo {
                assert(ws[i] == ows[i - 1] && ws[j] == ows[j - 1]);
            } else if i == lo {
                assert(ws[j] == old_slots[j - 1].word@);
            } else if j == lo {
                assert(ws[i] == old_slots[i].word@);
            } else {
                assert(ws[i] == old_slots[i].word@);
                assert(ws[j] == old_slots[j - 1].word@);
                lemma_headword_trans(ws[i], w, ws[j]);
            }
        }
        assert forall|x: Seq<char>| #[trigger] m2.contains_key(x) implies exists|i: int| 0 <= i < slots@.len() && (#[trigger] slots@[i]).word@ == x by {
            if x == w {
                assert(slots@[lo as int].word@ == x);
            } else {
                let i = choose|i: int| 0 <= i < old_slots.len() && (#[trigger] old_slots[i]).word@ == x;
                if i < lo {
                    assert(slots@[i].word@ == x);
                } else {
                    assert(slots@[i + 1].word@ == x);
                }
            }
        }
    }
    Ok(())
}

proof fn lemma_boundary(f: Seq<u8>, k: int)
    requires
        0 <= k <= f.len(),
        valid_utf8(f.subrange(0, k)),
        valid_utf8(f.subrange(k, f.len() as int)),
    ensures
        valid_utf8(f),
        is_char_boundary(f, k),
{
    valid_utf8_concat(f.subrange(0, k), f.subrange(k, f.len() as int));
    assert(f.subrange(0, k) + f.subrange(k, f.len() as int) =~= f);
    if k == f.len() {
        is_char_boundary_start_end_of_seq(f);
    } else if k == 0 {
    } else {
        let g = f.subrange(k, f.len() as int);
        is_char_boundary_iff_not_is_continuation_byte(g, 0);
        is_char_boundary_iff_not_is_continuation_byte(f, k);
    }
}

/// The spans given to symbols so far hold the pool's strings, between valid text.
spec fn spans_ok(buf: Seq<u8>, items: Seq<Seq<char>>, spans: Seq<(u64, u64)>, given: Seq<bool>) -> bool {
    &&& spans.len() == items.len()
    &&& given.len() == items.len()
    &&& forall|s: int| 0 <= s < items.len() && #[trigger] given[s] ==> {
        let (o, l) = spans[s];
        &&& o + l <= buf.len()
        &&& buf.subrange(o as int, o + l) == utf8(items[s])
        &&& valid_utf8(buf.subrange(0, o as int))
        &&& valid_utf8(buf.subrange(o + l, buf.len() as int))
    }
}

/// Sorts, stores and indexes the records. Diagnostics go to `diags`.
fn emit(
    recs: &Vec<Record>,
    merge: bool,
    name: &str,
    diags: Vec<Diagnostic>,
) -> (r: Result<BuiltArchive, BuildError>)
    ensures
        r is Ok ==> build_spec(records_view(recs@), merge, name@, r->Ok_0.ifo@, entries_view(r->Ok_0.index@), r->Ok_0.content@),
        r is Err ==> r->Err_0 is TooLarge,
        recs@.len() < 0xFFFF_FFFE && records_size(records_view(recs@), recs@.len() as int) <= 0xFFFF_FFFF ==> r is Ok,
{
    let mut diags = diags;
    let ghost rv = records_view(recs@);
    let mut slots: Vec<Slot> = Vec::new();
    let mut pool = pool_new();
    let mut k: usize = 0;
    while k < recs.len()
        invariant
            k <= recs@.len(),
            rv == records_view(recs@),
            slots_ok(slots@, pool_items(pool), fold_records(rv, merge, k as int)),
            pool_items(pool).len() <= k,
            sum_sizes(slot_words(slots@), fold_records(rv, merge, k as int)) <= records_size(rv, k as int),
        decreases recs@.len() - k,
    {
        assert(rv[k as int] == (recs@[k as int].word@, recs@[k as int].content@));
        add_record(&mut slots, &mut pool, &recs[k], merge, &mut diags, Ghost(fold_records(rv, merge, k as int)))?;
        k = k + 1;
    }
    let ghost m = fold_records(rv, merge, recs@.len() as int);
    let ghost items = pool_items(pool);
    let np = pool_len(&pool);
    let mut spans: Vec<(u64, u64)> = vec![(0u64, 0u64); np];
    let mut given: Vec<bool> = vec![false; np];
    let mut buf: Vec<u8> = Vec::new();
    let mut i: usize = 0;
    proof {
        assert(buf@.subrange(0, 0) =~= Seq::<u8>::empty());
    }
    while i < slots.len()
        invariant
            i <= slots@.len(),
            np == items.len(),
            items == pool_items(pool),
            slots_ok(slots@, items, m),
            valid_utf8(buf@),
            spans_ok(buf@, items, spans@, given@),
            forall|j: int| 0 <= j < i ==> given@[(#[trigger] slots@[j]).symbol as int],
            buf@.len() <= sum_sizes(slot_words(slots@).subrange(0, i as int), m),
            sum_sizes(slot_words(slots@), m) <= records_size(rv, recs@.len() as int),
        decreases slots@.len() - i,
    {
        proof {
            let ws = slot_words(slots@);
            assert(ws.subrange(0, i + 1).drop_last() =~= ws.subrange(0, i as int));
            assert(ws[i as int] == slots@[i as int].word@);
        }
        let sym = slots[i].symbol;
        if !given[sym] {
            let text = match pool_resolve(&pool, sym) {
                Some(t) => t,
                None => {
                    assert(false);
                    String::new()
                },
            };
            let bytes = text.as_str().as_bytes();
            let off = buf.len();
            let ghost old_buf = buf@;
            append_bytes(&mut buf, bytes);
            let ghost piece = utf8(items[sym as int]);
            assert(bytes@ == piece);
            proof {
                encode_utf8_valid_utf8(items[sym as int]);
                valid_utf8_concat(old_buf, piece);
                assert(buf@.subrange(0, off as int) =~= old_buf);
                assert(buf@.subrange(off as int, buf@.len() as int) =~= piece);
                assert(buf@.subrange(buf@.len() as int, buf@.len() as int) =~= Seq::<u8>::empty());
            }
            let ghost old_spans = spans@;
            let ghost old_given = given@;
            spans.set(sym, (off as u64, bytes.len() as u64));
            given.set(sym, true);
            proof {
                assert forall|s: int| 0 <= s < items.len() && #[trigger] given@[s] implies ({
                    let (o, l) = spans@[s];
                    &&& o + l <= buf@.len()
                    &&& buf@.subrange(o as int, o + l) == utf8(items[s])
                    &&& valid_utf8(buf@.subrange(0, o as int))
                    &&& valid_utf8(buf@.subrange(o + l, buf@.len() as int))
                }) by {
                    if s != sym {
                        let (o, l) = old_spans[s];
                        assert(old_given[s]);
                        assert(buf@.subrange(o as int, o + l) =~= old_buf.subrange(o as int, o + l));
                        assert(buf@.subrange(0, o as int) =~= old_buf.subrange(0, o as int));
                        let tail = old_buf.subrange(o + l, old_buf.len() as int);
                        valid_utf8_concat(tail, piece);
                        assert(buf@.subrange(o + l, buf@.len() as int) =~= tail + piece);
                    }
                }
            }
        }
        i = i + 1;
    }
    proof {
        assert(slot_words(slots@).subrange(0, slots@.len() as int) =~= slot_words(slots@));
    }
    if buf.len() > 0xFFFF_FFFF {
        return Err(BuildError::TooLarge);
    }
    let mut index: Vec<IndexEntry> = Vec::new();
    let mut j: usize = 0;
    while j < slots.len()
        invariant
            j <= slots@.len(),
            np == items.len(),
            slots_ok(slots@, items, m),
            spans_ok(buf@, items, spans@, given@),
            forall|t: int| 0 <= t < slots@.len() ==> given@[(#[trigger] slots@[t]).symbol as int],
            buf@.len() <= 0xFFFF_FFFF,
            index@.len() == j,
            forall|t: int| 0 <= t < j ==> (#[trigger] index@[t]).word@ == slots@[t].word@
                && index@[t].offset == spans@[slots@[t].symbol as int].0
                && index@[t].size == spans@[slots@[t].symbol as int].1,
        decreases slots@.len() - j,
    {
        let sym = slots[j].symbol;
        let (off, size) = spans[sym];
        index.push(IndexEntry { word: slots[j].word.clone(), offset: off, size });
        j = j + 1;
    }
    let ghost fb = buf@;
    let content = match from_utf8(buf) {
        Some(c) => c,
        None => {
            assert(false);
            String::new()
        },
    };
    let mut bookname = String::new();
    push_str(&mut bookname, name);
    let mut stt = String::new();
    push_str(&mut stt, "m");
    proof {
        reveal_strlit("m");
        assert(bookname@ =~= name@);
        assert(stt@ =~= plain_text_type());
    }
    let count = index.len();
    let ifo = Ifo {
        version: Version::V242,
        bookname,
        wordcount: count,
        synwordcount: 0,
        idxfilesize: 0,
        idxoffsetbits: 0,
        author: String::new(),
        email: String::new(),
        website: String::new(),
        description: String::new(),
        date: String::new(),
        sametypesequence: stt,
        dicttype: String::new(),
    };
    proof {
        decode_utf8_encode_utf8(fb);
        let es = entries_view(index@);
        let c = utf8(content@);
        assert(c == fb);
        assert(entry_words(es) =~= slot_words(slots@)) by {
            assert forall|t: int| 0 <= t < es.len() implies entry_words(es)[t] == slot_words(slots@)[t] by {
                assert(es[t] == index@[t]@);
            }
        }
        assert forall|t: int| 0 <= t < es.len() implies span_ok(c, (#[trigger] es[t]).1 as int, es[t].2 as int)
            && span_text(c, es[t].1 as int, es[t].2 as int) == m[es[t].0]
            && es[t].1 + es[t].2 <= 0xFFFF_FFFF by {
            assert(es[t] == index@[t]@);
            let s = slots@[t].symbol as int;
            assert(given@[s]);
            let (o, l) = spans@[s];
            let piece = utf8(items[s]);
            encode_utf8_valid_utf8(items[s]);
            encode_utf8_decode_utf8(items[s]);
            let rest = fb.subrange(o + l, fb.len() as int);
            valid_utf8_concat(piece, rest);
            assert(fb.subrange(o as int, fb.len() as int) =~= piece + rest);
            lemma_boundary(fb, o as int);
            let g = fb.subrange(o as int, fb.len() as int);
            assert(g.subrange(0, l as int) =~= piece);
            assert(g.subrange(l as int, g.len() as int) =~= rest);
            lemma_boundary(g, l as int);
        }
        assert forall|w: Seq<char>| m.contains_key(w) <==> exists|t: int| 0 <= t < es.len() && (#[trigger] es[t]).0 == w by {
            if m.contains_key(w) {
                let t = choose|t: int| 0 <= t < slots@.len() && (#[trigger] slots@[t]).word@ == w;
                assert(es[t] == index@[t]@);
            }
            if exists|t: int| 0 <= t < es.len() && (#[trigger] es[t]).0 == w {
                let t = choose|t: int| 0 <= t < es.len() && (#[trigger] es[t]).0 == w;
                assert(es[t] == index@[t]@);
                assert(slots@[t].word@ == w);
            }
        }
        assert forall|a: int, b: int| 0 <= a < es.len() && 0 <= b < es.len() && m[(#[trigger] es[a]).0] == m[(#[trigger] es[b]).0]
            implies es[a].1 == es[b].1 && es[a].2 == es[b].2 by {
            assert(es[a] == index@[a]@);
            assert(es[b] == index@[b]@);
            let sa = slots@[a].symbol as int;
            let sb = slots@[b].symbol as int;
            assert(items[sa] == items[sb]);
            if sa < sb {
                assert(items[sa] != items[sb]);
            } else if sb < sa {
                assert(items[sb] != items[sa]);
            }
        }
        assert(es.len() == count);
        assert(ifo@ == built_meta(name@, es.len()));
    }
    Ok(BuiltArchive { ifo, index, content, diagnostics: diags })
}

/// Builds an archive from blocks: a line of `|`-separated headwords, then
/// content lines up to a blank line. Records that share a headword are merged.
pub fn build_from_blocks(lines: &Vec<String>, name: &str) -> (r: Result<BuiltArchive, BuildError>)
    ensures
        r is Ok ==> build_spec(block_records_from(lines_view(lines@), 0), true, name@, r->Ok_0.ifo@,
            entries_view(r->Ok_0.index@), r->Ok_0.content@),
        r is Err ==> r->Err_0 is TooLarge,
        ({
            let recs = block_records_from(lines_view(lines@), 0);
            recs.len() < 0xFFFF_FFFE && records_size(recs, recs.len() as int) <= 0xFFFF_FFFF ==> r is Ok
        }),
{
    let (recs, diags) = block_records(lines);
    assert(records_view(recs@).len() == recs@.len());
    emit(&recs, true, name, diags)
}

/// Builds an archive from lines `headword<TAB>content`. A repeated headword
/// replaces the earlier content, with a diagnostic.
pub fn build_from_tabular(lines: &Vec<String>, name: &str) -> (r: Result<BuiltArchive, BuildError>)
    ensures
        r is Ok ==> build_spec(tabular_records_from(lines_view(lines@), 0), false, name@, r->Ok_0.ifo@,
            entries_view(r->Ok_0.index@), r->Ok_0.content@),
        r is Err ==> r->Err_0 is TooLarge,
        ({
            let recs = tabular_records_from(lines_view(lines@), 0);
            recs.len() < 0xFFFF_FFFE && records_size(recs, recs.len() as int) <= 0xFFFF_FFFF ==> r is Ok
        }),
{
    let (recs, diags) = tabular_records(lines);
    assert(records_view(recs@).len() == recs@.len());
    emit(&recs, false, name, diags)
}

impl BuiltArchive {
    /// The metadata file.
    pub fn ifo_bytes(&self) -> (r: Vec<u8>)
        ensures
            r@ == serialize_spec(self.ifo@),
    {
        self.ifo.to_bytes()
    }

    /// The index file, with four-byte integers.
    pub fn idx_bytes(&self) -> (r: Vec<u8>)
        ensures
            r@ == encode_spec(entries_view(self.index@), Version::V242),
    {
        encode_index(&self.index, Version::V242)
    }

    /// The content file, uncompressed.
    pub fn dict_bytes(&self) -> (r: Vec<u8>)
        ensures
            r@ == utf8(self.content@),
    {
        let b = self.content.as_str().as_bytes();
        copy_range(b, 0, b.len())
    }
}

} // verus!
