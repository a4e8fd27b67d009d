use dioxionary::logseq::{Logseq, Page};
use dioxionary::stardict::SearchAble;
use dioxionary::unicode::UnicodePicker;

fn page(name: &str, text: &str) -> Page {
    Page { file_name: name.to_owned(), text: text.to_owned() }
}

fn graph() -> Logseq {
    Logseq {
        pages: vec![
            page("other.md", "alias:: x\n- body"),
            page("ns%2FRust.md", "text"),
            page("Cargo.md", "c"),
            page("p.md", "title:: t\nalias:: Foo, Bar \n- x\nalias:: late"),
        ],
    }
}

#[test]
fn logseq_finds_pages_by_name_namespace_and_alias() {
    let g = graph();
    let e = g.find("RUST").unwrap();
    assert_eq!((e.word.as_str(), e.trans.as_str()), ("rust", "ns%2FRust.md\ntext"));
    assert_eq!(g.find("cargo").unwrap().trans, "Cargo.md\nc");
    assert_eq!(g.find("bar").unwrap().trans, "p.md\ntitle:: t\nalias:: Foo, Bar \n- x\nalias:: late");
    assert_eq!(g.find("x").unwrap().trans, "other.md\nalias:: x\n- body");
    assert!(g.find("late").is_none());
    assert!(g.find("body").is_none());
    assert_eq!(g.fuzzy_lookup("foo").len(), 1);
    assert!(g.fuzzy_lookup("nothing").is_empty());
    assert_eq!(g.dict_name(), "logseq");
}

#[test]
fn unicode_picker_matches_stems() {
    let u = UnicodePicker {
        lines: vec![
            "α greek small letter alpha".to_owned(),
            "→ rightwards arrow".to_owned(),
            "⇒ rightwards double arrow".to_owned(),
        ],
    };
    let e = UnicodePicker::exact_lookup(&u, "Arrows").unwrap();
    assert_eq!(e.word, "Arrows");
    assert_eq!(e.trans, "→ rightwards arrow\n⇒ rightwards double arrow\n");
    assert_eq!(UnicodePicker::exact_lookup(&u, "letters").unwrap().trans, "α greek small letter alpha\n");
    assert!(UnicodePicker::exact_lookup(&u, "α").is_none());
    assert!(UnicodePicker::exact_lookup(&u, "zzz").is_none());
    assert!(u.fuzzy_lookup("arrow").is_empty());
    assert_eq!(u.dict_name(), "unicodepicker");
}
