//! Looking words up among the pages of a Logseq graph: by page name, by the
//! last part of a namespaced page name, or by a page's `alias::` property.
use vstd::prelude::*;
use crate::stardict::{Entry, SearchAble};
use crate::text::{
    has_prefix, lines_of, lower_of, push_str, split_chars, split_on, strip_prefix, text_lines, to_lower, trim,
    trimmed_of,
};

verus! {

/// A page: its file name and its text.
#[derive(Debug, Clone)]
pub struct Page {
    pub file_name: String,
    pub text: String,
}

/// The pages of a graph, in the order in which they are searched.
#[derive(Debug, Clone)]
pub struct Logseq {
    pub pages: Vec<Page>,
}

/// `.md`
pub open spec fn md_suffix() -> Seq<char> {
    seq!['.', 'm', 'd']
}

/// `%2F`, the escaped `/` of a namespaced page name, starts at `k`.
pub open spec fn sep_at(s: Seq<char>, k: int) -> bool {
    0 <= k && k + 3 <= s.len() && s[k] == '%' && s[k + 1] == '2' && s[k + 2] == 'F'
}

/// The last `%2F` at or before `k`, or -1.
pub open spec fn last_sep(s: Seq<char>, k: int) -> int
    decreases k + 1,
{
    if k < 0 {
        -1
    } else if sep_at(s, k) {
        k
    } else {
        last_sep(s, k - 1)
    }
}

/// The part of a name after its last `%2F`, if there is one.
pub open spec fn sep_tail(s: Seq<char>) -> Option<Seq<char>> {
    let k = last_sep(s, s.len() - 3);
    if k >= 0 {
        Some(s.subrange(k + 3, s.len() as int))
    } else {
        None
    }
}

/// Relies on `str::rsplit_once`: the text after the last `%2F`.
#[verifier::external_body]
fn after_last_sep(s: &str) -> (r: Option<String>)
    ensures
        r is Some <==> sep_tail(s@) is Some,
        r is Some ==> r->0@ == sep_tail(s@)->0,
{
    match s.rsplit_once("%2F") {
        Some((_, tail)) => Some(tail.to_owned()),
        None => None,
    }
}

/// `alias:: `
pub open spec fn alias_prefix() -> Seq<char> {
    seq!['a', 'l', 'i', 'a', 's', ':', ':', ' ']
}

/// `- `, which starts the first block of a page, after its properties.
pub open spec fn block_prefix() -> Seq<char> {
    seq!['-', ' ']
}

/// One of the comma-separated names, trimmed and lowercased, is `q`.
pub open spec fn names_hit(names: Seq<Seq<char>>, q: Seq<char>, j: int) -> bool
    decreases names.len() - j,
{
    if j < 0 || j >= names.len() {
        false
    } else {
        lower_of(trimmed_of(names[j])) == q || names_hit(names, q, j + 1)
    }
}

/// An `alias:: ` line from line `i` on, before the first block, names `q`.
pub open spec fn alias_hit(lines: Seq<Seq<char>>, q: Seq<char>, i: int) -> bool
    decreases lines.len() - i,
{
    if i < 0 || i >= lines.len() {
        false
    } else if has_prefix(lines[i], alias_prefix()) {
        let rest = lines[i].subrange(8, lines[i].len() as int);
        names_hit(split_chars(rest, ','), q, 0) || alias_hit(lines, q, i + 1)
    } else if has_prefix(lines[i], block_prefix()) {
        false
    } else {
        alias_hit(lines, q, i + 1)
    }
}

/// The page is the one for `q` (a lowercase word).
pub open spec fn page_hit(name: Seq<char>, text: Seq<char>, q: Seq<char>) -> bool {
    ||| lower_of(name) == q + md_suffix()
    ||| (sep_tail(name) is Some && lower_of(sep_tail(name)->0) == q + md_suffix())
    ||| alias_hit(lines_of(text), q, 0)
}

/// The first page from `i` on that is the one for `q`, or the number of pages.
pub open spec fn first_page(pages: Seq<Page>, q: Seq<char>, i: int) -> int
    decreases pages.len() - i,
{
    if i < 0 || i >= pages.len() {
        pages.len() as int
    } else if page_hit(pages[i].file_name@, pages[i].text@, q) {
        i
    } else {
        first_page(pages, q, i + 1)
    }
}

fn names_hit_exec(names: &Vec<String>, q: &String) -> (r: bool)
    ensures
        r == names_hit(names@.map_values(|n: String| n@), q@, 0),
{
    let ghost ns = names@.map_values(|n: String| n@);
    let mut j = names.len();
    let mut hit = false;
    while j > 0
        invariant
            j <= names@.len(),
            ns == names@.map_values(|n: String| n@),
            hit == names_hit(ns, q@, j as int),
        decreases j,
    {
        j = j - 1;
        let t = trim(names[j].as_str());
        let l = to_lower(t.as_str());
        assert(ns[j as int] == names@[j as int]@);
        hit = l == *q || hit;
    }
    hit
}

fn alias_hit_exec(lines: &Vec<String>, q: &String) -> (r: bool)
    ensures
        r == alias_hit(lines@.map_values(|l: String| l@), q@, 0),
{
    let ghost ls = lines@.map_values(|l: String| l@);
    let mut i = lines.len();
    let mut hit = false;
    proof {
        reveal_strlit("alias:: ");
        reveal_strlit("- ");
    }
    while i > 0
        invariant
            i <= lines@.len(),
            ls == lines@.map_values(|l: String| l@),
            hit == alias_hit(ls, q@, i as int),
            "alias:: "@ == alias_prefix(),
            "- "@ == block_prefix(),
        decreases i,
    {
        i = i - 1;
        assert(ls[i as int] == lines@[i as int]@);
        match strip_prefix(lines[i].as_str(), "alias:: ") {
            Some(rest) => {
                let names = split_on(rest.as_str(), ',');
                hit = names_hit_exec(&names, q) || hit;
            },
            None => {
                if strip_prefix(lines[i].as_str(), "- ").is_some() {
                    hit = false;
                }
            },
        }
    }
    hit
}

impl Logseq {
    /// The entry of the first page for `word` (lowercased): its headword is
    /// the lowercased word; its text the file name, a line break, the page text.
    pub fn find(&self, word: &str) -> (r: Option<Entry>)
        ensures
            ({
                let q = lower_of(word@);
                let i = first_page(self.pages@, q, 0);
                &&& r is Some <==> i < self.pages@.len()
                &&& r is Some ==> r->0.word@ == q && r->0.trans@ == self.pages@[i].file_name@ + seq!['\n']
                    + self.pages@[i].text@
            }),
    {
        let q = to_lower(word);
        let mut target = q.clone();
        push_str(&mut target, ".md");
        proof {
            reveal_strlit(".md");
            reveal_strlit("\n");
        }
        let n = self.pages.len();
        let mut i: usize = 0;
        while i < n
            invariant
                i <= n,
                n == self.pages@.len(),
                q@ == lower_of(word@),
                target@ == q@ + md_suffix(),
                first_page(self.pages@, q@, 0) == first_page(self.pages@, q@, i as int),
            decreases n - i,
        {
            let page = &self.pages[i];
            let name_lower = to_lower(page.file_name.as_str());
            let mut hit = name_lower == target;
            if !hit {
                match after_last_sep(page.file_name.as_str()) {
                    Some(tail) => {
                        hit = to_lower(tail.as_str()) == target;
                    },
                    None => {},
                }
            }
            if !hit {
                let lines = text_lines(page.text.as_str());
                hit = alias_hit_exec(&lines, &q);
            }
            assert(self.pages@[i as int] == *page);
            assert(hit == page_hit(page.file_name@, page.text@, q@));
            if hit {
                let mut trans = page.file_name.clone();
                push_str(&mut trans, "\n");
                proof {
                    reveal_strlit("\n");
                }
                push_str(&mut trans, page.text.as_str());
                assert(trans@ == page.file_name@ + seq!['\n'] + page.text@);
                return Some(Entry { word: q, trans });
            }
            i = i + 1;
        }
        None
    }
}

impl SearchAble for Logseq {
    fn exact_lookup(&self, word: &str) -> Option<Entry> {
        self.find(word)
    }

    fn fuzzy_lookup(&self, target_word: &str) -> Vec<Entry> {
        match self.find(target_word) {
            Some(x) => vec![x],
            None => Vec::new(),
        }
    }

    fn dict_name(&self) -> &str {
        "logseq"
    }
}

} // verus!
