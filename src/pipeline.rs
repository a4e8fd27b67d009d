//! What building and then loading an archive guarantees.
use vstd::prelude::*;
use vstd::utf8::*;
use crate::builder::{build_spec, entry_words, fold_records, strictly_sorted, built_meta};
use crate::content::{content_of, is_gzip, span_ok};
use crate::index::{decode_spec, encodable, encode_spec, lemma_index_round_trip};
use crate::metadata::{
    Field, IfoView, Version, is_numeric, lemma_metadata_round_trip, no_line_break, number_of, parse_metadata_spec,
    serialize_spec, text_of, writable,
};
use crate::order::fold_key;
use crate::stardict::{all_spans_ok, exact_spec, first_match_from, keys_sorted, lemma_strict_order_sorts_keys};
use crate::text::utf8;

verus! {

proof fn lemma_first_match_le(es: Seq<(Seq<char>, nat, nat)>, q: Seq<u8>, a: int, i: int)
    requires
        0 <= a <= i < es.len(),
        fold_key(es[i].0) == q,
    ensures
        first_match_from(es, q, a) <= i,
    decreases i - a,
{
    if a < i && fold_key(es[a].0) != q {
        lemma_first_match_le(es, q, a + 1, i);
    }
}

proof fn lemma_first_match_nonneg(es: Seq<(Seq<char>, nat, nat)>, q: Seq<u8>, a: int)
    requires
        0 <= a,
    ensures
        first_match_from(es, q, a) >= 0,
    decreases es.len() - a,
{
    if a < es.len() && fold_key(es[a].0) != q {
        lemma_first_match_nonneg(es, q, a + 1);
    }
}

/// Valid UTF-8 never starts with the gzip magic number.
proof fn lemma_text_is_not_gzip(b: Seq<u8>)
    requires
        valid_utf8(b),
    ensures
        !is_gzip(b),
{
    if b.len() >= 2 && b[0] == 0x1f {
        assert(length_of_first_scalar(b) == 1);
        reveal_with_fuel(is_char_boundary, 2);
        assert(is_char_boundary(b, 1));
        is_char_boundary_iff_not_is_continuation_byte(b, 1);
    }
}

proof fn lemma_short_text_has_no_break(s: Seq<char>)
    requires
        s.len() == 0 || s == seq!['m'],
    ensures
        no_line_break(utf8(s)),
{
    if s.len() > 0 {
        assert(s.drop_first() =~= Seq::<char>::empty());
        assert(s[0] as u32 == 109);
        assert(has_width_1_encoding(109u32));
        assert((109u32 & 0x7F) as u8 == 109u8) by (bit_vector);
        assert(encode_scalar(109u32) =~= seq![109u8]);
        reveal_with_fuel(encode_utf8, 2);
        assert(utf8(s) =~= seq![109u8]);
    }
}

/// An archive the builder produced loads again: its metadata, index and
/// content decode to what was built, every index span is readable, the keys
/// are in order, and exact lookup finds every headword. This holds when the
/// book name has no line break and every headword is one the index can hold.
pub proof fn lemma_built_archive_loads(
    recs: Seq<(Seq<char>, Seq<char>)>,
    merge: bool,
    name: Seq<char>,
    ifo: IfoView,
    es: Seq<(Seq<char>, nat, nat)>,
    content: Seq<char>,
)
    requires
        build_spec(recs, merge, name, ifo, es, content),
        no_line_break(utf8(name)),
        es.len() <= usize::MAX,
        forall|i: int| 0 <= i < es.len() ==> encodable(#[trigger] es[i], 4),
    ensures
        parse_metadata_spec(serialize_spec(ifo)) == Some(ifo),
        decode_spec(encode_spec(es, Version::V242), Version::V242) == Some(es),
        content_of(utf8(content)) == Some(content),
        all_spans_ok(es, utf8(content)),
        keys_sorted(es),
        forall|w: Seq<char>| #[trigger] fold_records(recs, merge, recs.len() as int).contains_key(w) ==> exact_spec(
            es,
            utf8(content),
            w,
        ) is Some,
{
    assert(ifo == built_meta(name, es.len()));
    assert forall|f: Field| !is_numeric(f) && f != Field::Version implies no_line_break(#[trigger] utf8(text_of(ifo, f))) by {
        if f != Field::BookName {
            lemma_short_text_has_no_break(text_of(ifo, f));
        }
    }
    assert forall|f: Field| is_numeric(f) implies #[trigger] number_of(ifo, f) <= usize::MAX by {}
    assert(writable(ifo));
    lemma_metadata_round_trip(ifo);
    lemma_index_round_trip(es, Version::V242);
    encode_utf8_valid_utf8(content);
    encode_utf8_decode_utf8(content);
    lemma_text_is_not_gzip(utf8(content));
    let ws = entry_words(es);
    assert(strictly_sorted(ws));
    assert forall|i: int, j: int| 0 <= i < j < es.len() implies crate::order::headword_lt(#[trigger] es[i].0, #[trigger] es[j].0) by {
        assert(ws[i] == es[i].0 && ws[j] == es[j].0);
    }
    lemma_strict_order_sorts_keys(es);
    let m = fold_records(recs, merge, recs.len() as int);
    assert forall|w: Seq<char>| #[trigger] m.contains_key(w) implies exact_spec(es, utf8(content), w) is Some by {
        let i = choose|i: int| 0 <= i < es.len() && (#[trigger] es[i]).0 == w;
        lemma_first_match_le(es, fold_key(w), 0, i);
        let f = first_match_from(es, fold_key(w), 0);
        assert(0 <= f) by {
            lemma_first_match_nonneg(es, fold_key(w), 0);
        }
        assert(span_ok(utf8(content), es[f].1 as int, es[f].2 as int));
    }
}

} // verus!
