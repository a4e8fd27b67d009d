use dioxionary::builder::{build_from_blocks, build_from_tabular, BuiltArchive, Diagnostic};
use dioxionary::content::Dict;
use dioxionary::dict::is_enword;
use dioxionary::distance::min_edit_distance;
use dioxionary::error::ArchiveError;
use dioxionary::index::{decode_index, encode_index, IndexEntry};
use dioxionary::metadata::{Ifo, Version};
use dioxionary::order::compare_headwords;
use dioxionary::stardict::{role_of_extension, Entry, EntryWrapper, Role, SearchAble, StarDict};
use std::cmp::Ordering;
use std::io::Write;

fn lines(text: &str) -> Vec<String> {
    text.lines().map(|l| l.to_owned()).collect()
}

fn open_built(b: &BuiltArchive) -> StarDict {
    StarDict::new("built", Some(b.ifo_bytes()), Some(b.idx_bytes()), Some(b.dict_bytes())).unwrap()
}

fn tabular(text: &str) -> StarDict {
    open_built(&build_from_tabular(&lines(text), "test").unwrap())
}

fn pairs(v: &[Entry]) -> Vec<(String, String)> {
    v.iter().map(|e| (e.word.clone(), e.trans.clone())).collect()
}

#[test]
fn end_to_end_tabular() {
    let d = tabular("cat\tfeline animal\ndog\tcanine animal\n");
    let e = d.exact_lookup("cat").unwrap();
    assert_eq!((e.word.as_str(), e.trans.as_str()), ("cat", "feline animal"));
    assert!(d.exact_lookup("fish").is_none());
    assert_eq!(d.wordcount(), 2);
    assert_eq!(d.dict_name(), "test");
}

#[test]
fn exact_lookup_ignores_query_case() {
    let d = tabular("Rust\ta language\n");
    let upper = d.exact_lookup("RUST").unwrap();
    let lower = d.exact_lookup("rust").unwrap();
    assert_eq!(upper.word, "Rust");
    assert_eq!((upper.word, upper.trans), (lower.word, lower.trans));
}

#[test]
fn fuzzy_lookup_keeps_ties() {
    let d = tabular("cargo\tA\ncargoo\tB\ncards\tC\n");
    let got = pairs(&d.fuzzy_lookup("cargp"));
    assert_eq!(got, vec![("cargo".to_owned(), "A".to_owned())]);
    let d = tabular("cargo\tA\ncargp\tB\ncargq\tC\n");
    let got = pairs(&d.fuzzy_lookup("cargz"));
    assert_eq!(got.len(), 3);
}

#[test]
fn fuzzy_lookup_ties_at_minimum() {
    let d = tabular("cargo\tA\ncargoo\tB\ncards\tC\n");
    let got = pairs(&d.fuzzy_lookup("cargoq"));
    assert_eq!(
        got,
        vec![("cargo".to_owned(), "A".to_owned()), ("cargoo".to_owned(), "B".to_owned())]
    );
}

#[test]
fn fuzzy_lookup_cap() {
    let d = tabular("completely_unrelated_sequence_xyz\tX\n");
    assert!(d.fuzzy_lookup("ab").is_empty());
    let d = tabular("abcd\tX\n");
    assert_eq!(d.fuzzy_lookup("a").len(), 1);
    assert!(d.fuzzy_lookup("").is_empty());
}

#[test]
fn block_dedup_shares_content() {
    let b = build_from_blocks(&lines("alpha\ncontent X\n\nbeta\ncontent X\n"), "t").unwrap();
    assert_eq!(b.content.matches("content X").count(), 1);
    assert_eq!(b.index.len(), 2);
    assert_eq!(b.index[0].word, "alpha");
    assert_eq!(b.index[1].word, "beta");
    assert_eq!((b.index[0].offset, b.index[0].size), (b.index[1].offset, b.index[1].size));
}

#[test]
fn block_merge_not_replace() {
    let b = build_from_blocks(&lines("word\nA\n\nword\nB\n"), "t").unwrap();
    assert_eq!(b.index.len(), 1);
    let d = open_built(&b);
    assert_eq!(d.exact_lookup("word").unwrap().trans, "A\nB");
}

#[test]
fn block_headwords_and_multiline_content() {
    let b = build_from_blocks(&lines(" x | y |  | x \nline one\nline two\n\n\nz\n\nq\nlast"), "t").unwrap();
    let d = open_built(&b);
    assert_eq!(d.exact_lookup("x").unwrap().trans, "line one\nline two");
    assert_eq!(d.exact_lookup("y").unwrap().trans, "line one\nline two");
    assert!(d.exact_lookup("z").is_none());
    assert_eq!(d.exact_lookup("q").unwrap().trans, "last");
    assert!(matches!(b.diagnostics[0], Diagnostic::NoContent(_)));
    assert_eq!(d.wordcount(), 3);
}

#[test]
fn tabular_replaces_duplicates() {
    let b = build_from_tabular(&lines("w\tone\nw\ttwo\nnotab\nempty\t\nesc\ta\\nb\n"), "t").unwrap();
    assert!(matches!(&b.diagnostics[0], Diagnostic::Duplicate(w) if w == "w"));
    assert_eq!(b.diagnostics.len(), 1);
    let d = open_built(&b);
    assert!(d.exact_lookup("empty").is_none());
    assert_eq!(d.exact_lookup("w").unwrap().trans, "two");
    assert_eq!(d.exact_lookup("esc").unwrap().trans, "a\nb");
    assert!(d.exact_lookup("notab").is_none());
    assert_eq!(d.wordcount(), 2);
}

#[test]
fn builder_sorts_case_insensitively_then_by_bytes() {
    let b = build_from_tabular(&lines("rust\tb\nRust\ta\nApple\tc\nbanana\td\n"), "t").unwrap();
    let words: Vec<&str> = b.index.iter().map(|e| e.word.as_str()).collect();
    assert_eq!(words, vec!["Apple", "banana", "Rust", "rust"]);
    for w in b.index.windows(2) {
        assert_eq!(compare_headwords(&w[0].word, &w[1].word), Ordering::Less);
    }
    let d = open_built(&b);
    assert_eq!(d.exact_lookup("RUST").unwrap().word, "Rust");
    assert_eq!(d.wordcount(), 4);
    assert_eq!(b.ifo.wordcount, 4);
    assert_eq!(b.ifo.version, Version::V242);
    assert_eq!(b.ifo.sametypesequence, "m");
}

#[test]
fn metadata_round_trip() {
    let mut ifo = Ifo::empty();
    ifo.version = Version::V300;
    ifo.bookname = "Book = name".to_owned();
    ifo.wordcount = 57510;
    ifo.idxfilesize = 12;
    ifo.author = "Ä".to_owned();
    ifo.sametypesequence = "m".to_owned();
    let text = ifo.to_bytes();
    let back = Ifo::parse(&text).unwrap();
    assert_eq!(back.version, Version::V300);
    assert_eq!(back.bookname, "Book = name");
    assert_eq!(back.wordcount, 57510);
    assert_eq!(back.idxfilesize, 12);
    assert_eq!(back.author, "Ä");
    assert_eq!(back.sametypesequence, "m");
    assert_eq!(back.email, "");
    assert!(String::from_utf8(text).unwrap().starts_with("StarDict's dict ifo file\nversion=3.0.0\nbookname=Book = name\nwordcount=57510\n"));
}

#[test]
fn metadata_parse_rules() {
    let m = Ifo::parse(b"header\r\nversion=2.4.2\r\nwordcount=+7\r\nunknown=1\nbookname=a=b\n").unwrap();
    assert_eq!(m.version, Version::V242);
    assert_eq!(m.wordcount, 7);
    assert_eq!(m.bookname, "a=b");
    assert_eq!(Ifo::parse(b"version=9.9.9").unwrap().version, Version::Unknown);
    assert_eq!(Ifo::parse(b"").unwrap().version, Version::Unknown);
    assert!(matches!(Ifo::parse(b"wordcount=abc"), Err(ArchiveError::MetadataParse)));
    assert!(matches!(Ifo::parse(b"synwordcount=-1"), Err(ArchiveError::MetadataParse)));
    assert!(matches!(Ifo::parse(b"idxfilesize=99999999999999999999999"), Err(ArchiveError::MetadataParse)));
    assert_eq!(Version::V242.to_string(), "2.4.2");
    assert_eq!(Version::V300.to_string(), "3.0.0");
    assert_eq!(m.version(), Version::V242);
}

fn entry(w: &str, o: u64, s: u64) -> IndexEntry {
    IndexEntry { word: w.to_owned(), offset: o, size: s }
}

#[test]
fn index_round_trip_both_widths() {
    let es = vec![entry("a", 0, 1), entry("Bé", 1, 70000), entry("c", 4294967295, 3)];
    let b4 = encode_index(&es, Version::V242);
    assert_eq!(&b4[0..10], &[b'a', 0, 0, 0, 0, 0, 0, 0, 0, 1]);
    let back = decode_index(&b4, Version::V242).unwrap();
    assert_eq!(back.len(), 3);
    for (x, y) in es.iter().zip(back.iter()) {
        assert_eq!((&x.word, x.offset, x.size), (&y.word, y.offset, y.size));
    }
    let big = vec![entry("z", 1 << 40, 5)];
    let b8 = encode_index(&big, Version::V300);
    assert_eq!(b8.len(), 2 + 16);
    let back = decode_index(&b8, Version::V300).unwrap();
    assert_eq!((back[0].offset, back[0].size), (1 << 40, 5));
}

#[test]
fn index_decode_errors_and_leniency() {
    assert!(matches!(decode_index(b"a\0\0\0", Version::V242), Err(ArchiveError::IndexParse)));
    assert!(matches!(decode_index(b"", Version::Unknown), Err(ArchiveError::UnsupportedVersion)));
    let mut b = vec![0xffu8, 0];
    b.extend_from_slice(&[0, 0, 0, 1, 0, 0, 0, 2]);
    b.extend_from_slice(&[b'o', 0xfe, b'k', 0]);
    b.extend_from_slice(&[0, 0, 0, 3, 0, 0, 0, 4]);
    let es = decode_index(&b, Version::V242).unwrap();
    assert_eq!(es.len(), 1);
    assert_eq!((es[0].word.as_str(), es[0].offset, es[0].size), ("ok", 3, 4));
    assert!(decode_index(b"", Version::V300).unwrap().is_empty());
}

fn gzip(data: &[u8]) -> Vec<u8> {
    let mut e = flate2::write::GzEncoder::new(Vec::new(), flate2::Compression::default());
    e.write_all(data).unwrap();
    e.finish().unwrap()
}

#[test]
fn content_store_plain_and_gzip() {
    let plain = Dict::new(b"hello world".to_vec()).unwrap();
    assert_eq!(plain.get(6, 5).as_deref(), Some("world"));
    assert_eq!(plain.get(6, 6), None);
    let z = Dict::new(gzip("héllo".as_bytes())).unwrap();
    assert_eq!(z.get(0, 3).as_deref(), Some("hé"));
    assert_eq!(z.get(0, 2), None);
    assert_eq!(z.len(), 6);
    assert!(matches!(Dict::new(vec![0x1f, 0x8b, 1, 2, 3]), Err(ArchiveError::ContentDecode)));
    assert!(matches!(Dict::new(vec![0xff, 0xfe]), Err(ArchiveError::ContentDecode)));
}

#[test]
fn archive_errors() {
    let b = build_from_tabular(&lines("a\tb\n"), "t").unwrap();
    assert!(matches!(StarDict::new("d", None, Some(b.idx_bytes()), Some(b.dict_bytes())), Err(ArchiveError::Incomplete(d)) if d == "d"));
    assert!(matches!(StarDict::new("d", Some(b"wordcount=x".to_vec()), Some(b.idx_bytes()), Some(b.dict_bytes())), Err(ArchiveError::MetadataParse)));
    assert!(matches!(StarDict::new("d", Some(b"bookname=x".to_vec()), Some(b.idx_bytes()), Some(b.dict_bytes())), Err(ArchiveError::UnsupportedVersion)));
    assert!(matches!(StarDict::new("d", Some(b.ifo_bytes()), Some(b"a\0\0".to_vec()), Some(b.dict_bytes())), Err(ArchiveError::IndexParse)));
    assert!(matches!(StarDict::new("d", Some(b.ifo_bytes()), Some(b.idx_bytes()), Some(vec![0xff])), Err(ArchiveError::ContentDecode)));
    let empty = StarDict::new("d", Some(b.ifo_bytes()), Some(b.idx_bytes()), Some(Vec::new())).unwrap();
    assert!(empty.exact_lookup("a").is_none());
    assert!(empty.fuzzy_lookup("a").is_empty());
    let ok = StarDict::new("d", Some(b.ifo_bytes()), Some(b.idx_bytes()), Some(gzip(&b.dict_bytes()))).unwrap();
    assert_eq!(ok.exact_lookup("A").unwrap().trans, "b");
}

#[test]
fn edit_distance_values() {
    assert_eq!(min_edit_distance("kitten", "sitting"), 3);
    assert_eq!(min_edit_distance("", "abc"), 3);
    assert_eq!(min_edit_distance("abc", "abc"), 0);
    assert_eq!(min_edit_distance("cargp", "cargo"), 1);
    assert_eq!(min_edit_distance("cargp", "cards"), 2);
    assert_eq!(min_edit_distance("é", "e"), 1);
}

#[test]
fn english_words() {
    assert!(is_enword("hello world 42"));
    assert!(is_enword(""));
    assert!(!is_enword("héllo"));
    assert!(!is_enword("a-b"));
}

#[test]
fn roles_and_display() {
    assert_eq!(role_of_extension("ifo"), Some(Role::Metadata));
    assert_eq!(role_of_extension("idx"), Some(Role::Index));
    assert_eq!(role_of_extension("dz"), Some(Role::Content));
    assert_eq!(role_of_extension("dict"), Some(Role::Content));
    assert_eq!(role_of_extension("syn"), None);
    let w = EntryWrapper { dict_name: "d".to_owned(), entry: Entry { word: "w".to_owned(), trans: "t".to_owned() } };
    assert_eq!(w.to_display_string(), "w d\n");
    let d = tabular("x\ty\n");
    assert_eq!(SearchAble::dict_name(&d), "test");
    assert_eq!(SearchAble::exact_lookup(&d, "X").unwrap().trans, "y");
}

#[test]
fn replacement_character_headwords_are_kept() {
    let es = vec![entry("\u{FFFD}", 0, 1), entry("a\u{FFFD}", 1, 2)];
    let bytes = encode_index(&es, Version::V242);
    let back = decode_index(&bytes, Version::V242).unwrap();
    assert_eq!(back.len(), 2);
    assert_eq!(back[0].word, "\u{FFFD}");
    assert_eq!(back[1].word, "a\u{FFFD}");
    let raw = [0xEFu8, 0xBF, 0xBD, 0, 0, 0, 0, 1, 0, 0, 0, 2];
    let one = decode_index(&raw, Version::V242).unwrap();
    assert_eq!((one[0].word.as_str(), one[0].offset, one[0].size), ("\u{FFFD}", 1, 2));
    let mixed = [b'x', 0xC3, 0xEF, 0xBF, 0xBD, 0xF0, 0x9F, b'y', 0, 0, 0, 0, 0, 0, 0, 0, 0];
    let m = decode_index(&mixed, Version::V242).unwrap();
    assert_eq!(m[0].word, "x\u{FFFD}y");
}

#[test]
fn unreadable_spans_are_checked_at_lookup() {
    let mut ifo = Ifo::empty();
    ifo.version = Version::V242;
    ifo.bookname = "spans".to_owned();
    let es = vec![entry("a", 0, 1), entry("b", 0, 99), entry("c", 2, 2)];
    let d = StarDict::new(
        "d",
        Some(ifo.to_bytes()),
        Some(encode_index(&es, Version::V242)),
        Some("xé".as_bytes().to_vec()),
    )
    .unwrap();
    assert_eq!(d.wordcount(), 3);
    assert_eq!(d.exact_lookup("a").unwrap().trans, "x");
    assert!(d.exact_lookup("b").is_none());
    assert!(d.exact_lookup("c").is_none());
    let got = pairs(&d.fuzzy_lookup("d"));
    assert_eq!(got, vec![("a".to_owned(), "x".to_owned())]);
}
