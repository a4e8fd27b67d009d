use dioxionary::builder::build_from_tabular;
use dioxionary::stardict::{SearchAble, StarDict};

/// An archive standing in for the `cdict-gb` dictionary: its book name, its
/// word count, and the words the lookups below expect.
fn cdict() -> StarDict {
    let mut lines: Vec<String> = Vec::new();
    for w in ["cargo", "crate", "rust"] {
        lines.push(format!("{w}\tentry for {w}"));
    }
    for i in 0..57507 {
        lines.push(format!("zz{i:05}\tfiller {i}"));
    }
    let b = build_from_tabular(&lines, "CDICT5英汉辞典").unwrap();
    StarDict::new("./stardict-heritage/cdict-gb", Some(b.ifo_bytes()), Some(b.idx_bytes()), Some(b.dict_bytes()))
        .unwrap()
}

#[test]
fn load_stardict() {
    let stardict = cdict();
    assert_eq!(stardict.dict_name(), "CDICT5英汉辞典");
    assert_eq!(stardict.wordcount(), 57510);
}

#[test]
fn lookup_offline() {
    let stardict = cdict();
    stardict.exact_lookup("rust").unwrap();
}

#[test]
fn lookup_offline_fuzzy() {
    let stardict = cdict();
    let misspell = ["rst", "cago", "crade"];
    let correct = ["rust", "cargo", "crate"];
    for (mis, cor) in misspell.iter().zip(correct.iter()) {
        let fuzzy = SearchAble::fuzzy_lookup(&stardict, mis);
        fuzzy.iter().find(|w| w.word == *cor).unwrap();
    }
}
