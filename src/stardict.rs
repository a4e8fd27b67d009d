//! A loaded archive and the lookups it serves.
use vstd::prelude::*;
use vstd::utf8::*;
use crate::content::{content_of, span_ok, span_text, Dict};
use crate::distance::{edit_distance, min_edit_distance};
use crate::error::ArchiveError;
use crate::index::{decode_index, decode_spec, entries_view, IndexEntry};
use crate::metadata::{parse_metadata_spec, Ifo, IfoView, Version};
use crate::order::{compare_bytes, fold_key, headword_lt, lemma_lex_total, lemma_lex_trans, lex_lt};
use crate::text::{chars_vec, lower_of, push_str, to_lower, utf8};

verus! {

/// A capability shared by dictionary sources: exact and approximate lookup, and a name.
pub trait SearchAble {
    fn exact_lookup(&self, word: &str) -> Option<Entry>;

    fn fuzzy_lookup(&self, target_word: &str) -> Vec<Entry>;

    fn dict_name(&self) -> &str;
}

/// A headword and its content.
#[derive(Debug, Clone)]
pub struct Entry {
    pub word: String,
    pub trans: String,
}

impl View for Entry {
    type V = (Seq<char>, Seq<char>);

    open spec fn view(&self) -> (Seq<char>, Seq<char>) {
        (self.word@, self.trans@)
    }
}

/// An entry labelled with the name of the dictionary it came from.
#[derive(Debug, Clone)]
pub struct EntryWrapper {
    pub dict_name: String,
    pub entry: Entry,
}

impl EntryWrapper {
    /// One line: the headword, a space, the dictionary name.
    pub fn to_display_string(&self) -> (r: String)
        ensures
            r@ == self.entry.word@ + seq![' '] + self.dict_name@ + seq!['\n'],
    {
        let mut s = self.entry.word.clone();
        push_str(&mut s, " ");
        push_str(&mut s, self.dict_name.as_str());
        push_str(&mut s, "\n");
        proof {
            reveal_strlit(" ");
            reveal_strlit("\n");
        }
        s
    }
}

/// The decoded index of an archive.
#[derive(Debug)]
pub struct Idx {
    pub items: Vec<IndexEntry>,
}

impl Idx {
    /// Decodes an index file under the metadata's version.
    pub fn new(b: &[u8], version: Version) -> (r: Result<Idx, ArchiveError>)
        ensures
            version == Version::Unknown ==> r is Err && r->Err_0 is UnsupportedVersion,
            version != Version::Unknown ==> (r is Ok <==> decode_spec(b@, version) is Some),
            version != Version::Unknown && r is Err ==> r->Err_0 is IndexParse,
            r is Ok ==> entries_view(r->Ok_0.items@) == decode_spec(b@, version)->0,
    {
        match decode_index(b, version) {
            Ok(items) => Ok(Idx { items }),
            Err(e) => Err(e),
        }
    }
}

/// The role of a file in an archive directory.
#[derive(Clone, Copy, Debug, PartialEq, Eq, Structural)]
pub enum Role {
    Metadata,
    Index,
    Content,
}

/// The role of a file by its extension: `ifo`, `idx`, and `dz` or `dict`.
pub open spec fn role_spec(ext: Seq<u8>) -> Option<Role> {
    if ext == seq![105u8, 102, 111] {
        Some(Role::Metadata)
    } else if ext == seq![105u8, 100, 120] {
        Some(Role::Index)
    } else if ext == seq![100u8, 122] || ext == seq![100u8, 105, 99, 116] {
        Some(Role::Content)
    } else {
        None
    }
}

fn same_bytes(a: &[u8], b: &[u8]) -> (r: bool)
    ensures
        r == (a@ == b@),
{
    match compare_bytes(a, b) {
        core::cmp::Ordering::Equal => true,
        _ => false,
    }
}

/// The role of a file with extension `ext` in an archive directory.
pub fn role_of_extension(ext: &str) -> (r: Option<Role>)
    ensures
        r == role_spec(utf8(ext@)),
{
    let e = ext.as_bytes();
    let ifo: Vec<u8> = vec![105u8, 102, 111];
    let idx: Vec<u8> = vec![105u8, 100, 120];
    let dz: Vec<u8> = vec![100u8, 122];
    let dict: Vec<u8> = vec![100u8, 105, 99, 116];
    if same_bytes(e, ifo.as_slice()) {
        Some(Role::Metadata)
    } else if same_bytes(e, idx.as_slice()) {
        Some(Role::Index)
    } else if same_bytes(e, dz.as_slice()) || same_bytes(e, dict.as_slice()) {
        Some(Role::Content)
    } else {
        None
    }
}

/// Every index span addresses text of the content.
pub open spec fn all_spans_ok(es: Seq<(Seq<char>, nat, nat)>, c: Seq<u8>) -> bool {
    forall|i: int| 0 <= i < es.len() ==> span_ok(c, #[trigger] es[i].1 as int, es[i].2 as int)
}

/// The lowercase keys of the index never decrease.
pub open spec fn keys_sorted(es: Seq<(Seq<char>, nat, nat)>) -> bool {
    forall|i: int, j: int| 0 <= i < j < es.len() ==> !lex_lt(#[trigger] fold_key(es[j].0), #[trigger] fold_key(es[i].0))
}

/// The first index from `i` on whose key is `q`, or the length.
pub open spec fn first_match_from(es: Seq<(Seq<char>, nat, nat)>, q: Seq<u8>, i: int) -> int
    decreases es.len() - i,
{
    if i < 0 || i >= es.len() {
        es.len() as int
    } else if fold_key(es[i].0) == q {
        i
    } else {
        first_match_from(es, q, i + 1)
    }
}

/// The entry of record `i`: its headword and the text of its span.
pub open spec fn entry_at(es: Seq<(Seq<char>, nat, nat)>, c: Seq<u8>, i: int) -> (Seq<char>, Seq<char>) {
    (es[i].0, span_text(c, es[i].1 as int, es[i].2 as int))
}

/// What exact lookup returns on an index whose keys are in order: the first
/// record whose key is the query's key, or `None` when there is none or its
/// span cannot be read.
pub open spec fn exact_spec(es: Seq<(Seq<char>, nat, nat)>, c: Seq<u8>, q: Seq<char>) -> Option<(Seq<char>, Seq<char>)> {
    let i = first_match_from(es, fold_key(q), 0);
    if i < es.len() && span_ok(c, es[i].1 as int, es[i].2 as int) {
        Some(entry_at(es, c, i))
    } else {
        None
    }
}

pub open spec fn entry_opt_view(r: Option<Entry>) -> Option<(Seq<char>, Seq<char>)> {
    match r {
        Some(e) => Some(e@),
        None => None,
    }
}

/// Exact lookup does not depend on the case of the query: two queries with
/// the same lowercase form find the same entry.
pub proof fn lemma_exact_lookup_case_insensitive(es: Seq<(Seq<char>, nat, nat)>, c: Seq<u8>, q1: Seq<char>, q2: Seq<char>)
    requires
        lower_of(q1) == lower_of(q2),
    ensures
        exact_spec(es, c, q1) == exact_spec(es, c, q2),
{
}

/// An index in strict headword order has its lowercase keys in order, so
/// exact lookup over it is exact.
pub proof fn lemma_strict_order_sorts_keys(es: Seq<(Seq<char>, nat, nat)>)
    requires
        forall|i: int, j: int| 0 <= i < j < es.len() ==> headword_lt(#[trigger] es[i].0, #[trigger] es[j].0),
    ensures
        keys_sorted(es),
{
    assert forall|i: int, j: int| 0 <= i < j < es.len() implies !lex_lt(#[trigger] fold_key(es[j].0), #[trigger] fold_key(es[i].0)) by {
        assert(headword_lt(es[i].0, es[j].0));
        lemma_lex_total(fold_key(es[i].0), fold_key(es[j].0));
    }
}

/// The greatest distance that approximate lookup reports.
pub const FUZZY_CAP: usize = 3;

/// The distance of a headword from a query, both lowercased; beyond the cap
/// when the two cannot be measured in machine words.
pub open spec fn rank(q: Seq<char>, w: Seq<char>) -> nat {
    let a = lower_of(q);
    let b = lower_of(w);
    if a.len() + b.len() < usize::MAX {
        edit_distance(a, b)
    } else {
        (FUZZY_CAP + 1) as nat
    }
}

/// The least rank among the first `k` records, or the cap if that is smaller.
pub open spec fn best_upto(es: Seq<(Seq<char>, nat, nat)>, q: Seq<char>, k: int) -> nat
    decreases k,
{
    if k <= 0 || k > es.len() {
        FUZZY_CAP as nat
    } else {
        let d = rank(q, es[k - 1].0);
        let m = best_upto(es, q, k - 1);
        if d < m {
            d
        } else {
            m
        }
    }
}

/// The positions among the first `k` records whose rank is `m`, in order.
pub open spec fn tied_upto(es: Seq<(Seq<char>, nat, nat)>, q: Seq<char>, k: int, m: nat) -> Seq<int>
    decreases k,
{
    if k <= 0 || k > es.len() {
        seq![]
    } else if rank(q, es[k - 1].0) == m {
        tied_upto(es, q, k - 1, m).push(k - 1)
    } else {
        tied_upto(es, q, k - 1, m)
    }
}

/// The entries of the first `j` of the records `idxs` whose spans can be read.
pub open spec fn readable_entries(es: Seq<(Seq<char>, nat, nat)>, c: Seq<u8>, idxs: Seq<int>, j: int) -> Seq<(Seq<char>, Seq<char>)>
    decreases j,
{
    if j <= 0 || j > idxs.len() {
        seq![]
    } else if span_ok(c, es[idxs[j - 1]].1 as int, es[idxs[j - 1]].2 as int) {
        readable_entries(es, c, idxs, j - 1).push(entry_at(es, c, idxs[j - 1]))
    } else {
        readable_entries(es, c, idxs, j - 1)
    }
}

/// What approximate lookup returns: every record tied at the least rank, when
/// that rank is within the cap, in index order; records whose span cannot be
/// read are left out.
pub open spec fn fuzzy_spec(es: Seq<(Seq<char>, nat, nat)>, c: Seq<u8>, q: Seq<char>) -> Seq<(Seq<char>, Seq<char>)> {
    let tied = tied_upto(es, q, es.len() as int, best_upto(es, q, es.len() as int));
    readable_entries(es, c, tied, tied.len() as int)
}

proof fn lemma_first_match(es: Seq<(Seq<char>, nat, nat)>, q: Seq<u8>, a: int, b: int)
    requires
        0 <= a <= b <= es.len(),
        forall|j: int| a <= j < b ==> fold_key(#[trigger] es[j].0) != q,
        b == es.len() || fold_key(es[b].0) == q,
    ensures
        first_match_from(es, q, a) == b,
    decreases b - a,
{
    if a < b {
        lemma_first_match(es, q, a + 1, b);
    }
}

proof fn lemma_tied_none(es: Seq<(Seq<char>, nat, nat)>, q: Seq<char>, k: int, m: nat)
    requires
        0 <= k <= es.len(),
        forall|j: int| 0 <= j < k ==> rank(q, #[trigger] es[j].0) > m,
    ensures
        tied_upto(es, q, k, m) == Seq::<int>::empty(),
    decreases k,
{
    if k > 0 {
        lemma_tied_none(es, q, k - 1, m);
    }
}

proof fn lemma_best_le(es: Seq<(Seq<char>, nat, nat)>, q: Seq<char>, k: int)
    requires
        0 <= k <= es.len(),
    ensures
        best_upto(es, q, k) <= FUZZY_CAP,
        forall|j: int| 0 <= j < k ==> best_upto(es, q, k) <= rank(q, #[trigger] es[j].0),
    decreases k,
{
    if k > 0 {
        lemma_best_le(es, q, k - 1);
    }
}

/// A loaded archive: metadata, index and content. Immutable once loaded.
pub struct StarDict {
    ifo: Ifo,
    idx: Idx,
    dict: Dict,
}

impl StarDict {
    pub closed spec fn meta(&self) -> IfoView {
        self.ifo@
    }

    pub closed spec fn entries(&self) -> Seq<(Seq<char>, nat, nat)> {
        entries_view(self.idx.items@)
    }

    /// The content bytes.
    pub closed spec fn content(&self) -> Seq<u8> {
        self.dict.bytes()
    }

    /// Loads an archive from the bytes of its three files, each `None` when
    /// the directory `dir` has no such file. Metadata, index (under the
    /// metadata's version) and content are decoded in that order. Index spans
    /// are checked when a lookup reads them.
    pub fn new(dir: &str, ifo: Option<Vec<u8>>, idx: Option<Vec<u8>>, dict: Option<Vec<u8>>) -> (r: Result<StarDict, ArchiveError>)
        ensures
            ({
                let missing = ifo is None || idx is None || dict is None;
                let m = parse_metadata_spec(ifo->0@);
                let es = decode_spec(idx->0@, m->0.version);
                let c = content_of(dict->0@);
                &&& missing ==> r is Err && r->Err_0 is Incomplete && r->Err_0->Incomplete_0@ == dir@
                &&& !missing && m is None ==> r is Err && r->Err_0 is MetadataParse
                &&& !missing && m is Some && m->0.version == Version::Unknown ==> r is Err
                    && r->Err_0 is UnsupportedVersion
                &&& !missing && m is Some && m->0.version != Version::Unknown && es is None ==> r is Err
                    && r->Err_0 is IndexParse
                &&& !missing && m is Some && m->0.version != Version::Unknown && es is Some && c is None
                    ==> r is Err && r->Err_0 is ContentDecode
                &&& r is Ok <==> (!missing && m is Some && m->0.version != Version::Unknown && es is Some
                    && c is Some)
                &&& r is Ok ==> r->Ok_0.meta() == m->0 && r->Ok_0.entries() == es->0 && r->Ok_0.content()
                    == utf8(c->0)
            }),
    {
        let ghost (ifo_in, idx_in, dict_in) = (ifo, idx, dict);
        let (ifo_raw, idx_raw, dict_raw) = match (ifo, idx, dict) {
            (Some(a), Some(b), Some(c)) => (a, b, c),
            _ => {
                return Err(ArchiveError::Incomplete(dir.to_owned()));
            },
        };
        let ghost dict_bytes = dict_raw@;
        assert(ifo_in == Some(ifo_raw) && idx_in == Some(idx_raw) && dict_in == Some(dict_raw));
        let meta = Ifo::parse(ifo_raw.as_slice())?;
        let index = Idx::new(idx_raw.as_slice(), meta.version)?;
        let store = Dict::new(dict_raw)?;
        proof {
            store.lemma_bytes();
        }
        proof {
            store.lemma_bytes();
        }
        Ok(StarDict { ifo: meta, idx: index, dict: store })
    }

    /// The number of records in the index.
    pub fn wordcount(&self) -> (r: usize)
        ensures
            r == self.entries().len(),
    {
        self.idx.items.len()
    }

    /// The book name from the metadata.
    pub fn dict_name(&self) -> (r: &str)
        ensures
            r@ == self.meta().bookname,
    {
        self.ifo.bookname.as_str()
    }

    /// The metadata record.
    pub fn ifo(&self) -> (r: &Ifo)
        ensures
            r@ == self.meta(),
    {
        &self.ifo
    }

    /// The entry of record `i`, or `None` when its span cannot be read.
    fn entry(&self, i: usize) -> (r: Option<Entry>)
        requires
            i < self.entries().len(),
        ensures
            r is Some <==> span_ok(self.content(), self.entries()[i as int].1 as int, self.entries()[i as int].2 as int),
            r is Some ==> r->0@ == entry_at(self.entries(), self.content(), i as int),
    {
        let e = &self.idx.items[i];
        let ghost es = self.entries();
        assert(es[i as int] == e@);
        match self.dict.get(e.offset, e.size) {
            Some(trans) => Some(Entry { word: e.word.clone(), trans }),
            None => None,
        }
    }

    /// Finds `word` case-insensitively by binary search over the lowercase
    /// keys. On an index whose keys are in order, the result is the first
    /// record whose key is the query's, and `None` when there is none.
    pub fn exact_lookup(&self, word: &str) -> (r: Option<Entry>)
        ensures
            ({
                let es = self.entries();
                let q = fold_key(word@);
                &&& r is Some ==> exists|i: int| 0 <= i < es.len() && fold_key(#[trigger] es[i].0) == q
                    && span_ok(self.content(), es[i].1 as int, es[i].2 as int) && r->0@ == entry_at(es, self.content(), i)
                &&& keys_sorted(es) ==> entry_opt_view(r) == exact_spec(es, self.content(), word@)
            }),
    {
        let ghost es = self.entries();
        let lw = to_lower(word);
        let q = lw.as_str().as_bytes();
        let ghost qk = fold_key(word@);
        assert(q@ == qk);
        let n = self.idx.items.len();
        let mut lo: usize = 0;
        let mut hi: usize = n;
        while lo < hi
            invariant
                0 <= lo <= hi <= n,
                n == es.len(),
                es == self.entries(),
                q@ == qk,
                keys_sorted(es) ==> forall|i: int| 0 <= i < lo ==> lex_lt(#[trigger] fold_key(es[i].0), qk),
                keys_sorted(es) ==> forall|i: int| hi <= i < n ==> !lex_lt(#[trigger] fold_key(es[i].0), qk),
            decreases hi - lo,
        {
            let mid = lo + (hi - lo) / 2;
            let lk = to_lower(self.idx.items[mid].word.as_str());
            let kb = lk.as_str().as_bytes();
            let ghost km = fold_key(es[mid as int].0);
            assert(kb@ == km);
            match compare_bytes(kb, q) {
                core::cmp::Ordering::Less => {
                    proof {
                        if keys_sorted(es) {
                            assert forall|i: int| 0 <= i < mid + 1 implies lex_lt(#[trigger] fold_key(es[i].0), qk) by {
                                if i < mid {
                                    lemma_lex_total(fold_key(es[i].0), km);
                                    if lex_lt(fold_key(es[i].0), km) {
                                        lemma_lex_trans(fold_key(es[i].0), km, qk);
                                    }
                                }
                            }
                        }
                    }
                    lo = mid + 1;
                },
                _ => {
                    proof {
                        if keys_sorted(es) {
                            assert forall|i: int| mid <= i < n implies !lex_lt(#[trigger] fold_key(es[i].0), qk) by {
                                if i > mid && lex_lt(fold_key(es[i].0), qk) {
                                    lemma_lex_total(fold_key(es[i].0), km);
                                    if lex_lt(km, fold_key(es[i].0)) {
                                        lemma_lex_trans(km, fold_key(es[i].0), qk);
                                    }
                                }
                            }
                        }
                    }
                    hi = mid;
                },
            }
        }
        if lo < n {
            let lk = to_lower(self.idx.items[lo].word.as_str());
            if same_bytes(lk.as_str().as_bytes(), q) {
                let e = self.entry(lo);
                proof {
                    if keys_sorted(es) {
                        assert forall|j: int| 0 <= j < lo implies fold_key(#[trigger] es[j].0) != qk by {
                            lemma_lex_total(fold_key(es[j].0), qk);
                        }
                        lemma_first_match(es, qk, 0, lo as int);
                    }
                }
                return e;
            }
        }
        proof {
            if keys_sorted(es) {
                assert forall|j: int| 0 <= j < n implies fold_key(#[trigger] es[j].0) != qk by {
                    lemma_lex_total(fold_key(es[j].0), qk);
                    if j > lo && fold_key(es[j].0) == qk {
                        lemma_lex_total(fold_key(es[lo as int].0), qk);
                    }
                }
                lemma_first_match(es, qk, 0, n as int);
            }
        }
        None
    }

    /// All records tied at the least edit distance from `target_word`
    /// (both lowercased), when that distance is at most the cap, in index order.
    pub fn fuzzy_lookup(&self, target_word: &str) -> (r: Vec<Entry>)
        ensures
            r@.map_values(|e: Entry| e@) == fuzzy_spec(self.entries(), self.content(), target_word@),
    {
        let ghost es = self.entries();
        let ghost qw = target_word@;
        let target = to_lower(target_word);
        let tlen = chars_vec(target.as_str()).len();
        let mut min_dist: usize = FUZZY_CAP;
        let mut res: Vec<usize> = Vec::new();
        let n = self.idx.items.len();
        let mut k: usize = 0;
        while k < n
            invariant
                k <= n,
                n == es.len(),
                es == self.entries(),
                target@ == lower_of(qw),
                tlen == lower_of(qw).len(),
                min_dist == best_upto(es, qw, k as int),
                res@.map_values(|i: usize| i as int) == tied_upto(es, qw, k as int, min_dist as nat),
                forall|j: int| 0 <= j < res@.len() ==> #[trigger] res@[j] < k,
            decreases n - k,
        {
            let lw = to_lower(self.idx.items[k].word.as_str());
            let wlen = chars_vec(lw.as_str()).len();
            let ghost w = es[k as int].0;
            let dist: usize = if tlen < usize::MAX - wlen {
                min_edit_distance(target.as_str(), lw.as_str())
            } else {
                FUZZY_CAP + 1
            };
            assert(dist == rank(qw, w));
            let ghost old_res = res@;
            let ghost old_min = min_dist;
            if dist < min_dist {
                proof {
                    lemma_best_le(es, qw, k as int);
                    lemma_tied_none(es, qw, k as int, dist as nat);
                }
                min_dist = dist;
                res.clear();
                res.push(k);
                assert(res@.map_values(|i: usize| i as int) =~= tied_upto(es, qw, k + 1, min_dist as nat));
            } else if dist == min_dist {
                res.push(k);
                assert(res@.map_values(|i: usize| i as int) =~= old_res.map_values(|i: usize| i as int).push(k as int));
            }
            k = k + 1;
        }
        let mut out: Vec<Entry> = Vec::new();
        let mut j: usize = 0;
        let ghost tied = tied_upto(es, qw, n as int, min_dist as nat);
        proof {
            lemma_tied_in_range(es, qw, n as int, min_dist as nat);
        }
        while j < res.len()
            invariant
                j <= res@.len(),
                es == self.entries(),
                n == es.len(),
                res@.map_values(|i: usize| i as int) == tied,
                forall|t: int| 0 <= t < tied.len() ==> 0 <= #[trigger] tied[t] < n,
                out@.map_values(|e: Entry| e@) == readable_entries(es, self.content(), tied, j as int),
            decreases res@.len() - j,
        {
            assert(tied[j as int] == res@[j as int] as int);
            let ghost before = out@.map_values(|e: Entry| e@);
            match self.entry(res[j]) {
                Some(e) => {
                    out.push(e);
                    assert(out@.map_values(|e: Entry| e@) =~= before.push(e@));
                },
                None => {},
            }
            j = j + 1;
        }
        out
    }
}

proof fn lemma_tied_in_range(es: Seq<(Seq<char>, nat, nat)>, q: Seq<char>, k: int, m: nat)
    requires
        0 <= k <= es.len(),
    ensures
        forall|t: int| 0 <= t < tied_upto(es, q, k, m).len() ==> 0 <= #[trigger] tied_upto(es, q, k, m)[t] < k,
    decreases k,
{
    if k > 0 {
        lemma_tied_in_range(es, q, k - 1, m);
        let prev = tied_upto(es, q, k - 1, m);
        if rank(q, es[k - 1].0) == m {
            assert forall|t: int| 0 <= t < prev.push(k - 1).len() implies 0 <= #[trigger] prev.push(k - 1)[t] < k by {
                if t < prev.len() {
                    assert(prev.push(k - 1)[t] == prev[t]);
                }
            }
        }
    }
}

impl SearchAble for StarDict {
    fn exact_lookup(&self, word: &str) -> Option<Entry> {
        StarDict::exact_lookup(self, word)
    }

    fn fuzzy_lookup(&self, target_word: &str) -> Vec<Entry> {
        StarDict::fuzzy_lookup(self, target_word)
    }

    fn dict_name(&self) -> &str {
        StarDict::dict_name(self)
    }
}

} // verus!
