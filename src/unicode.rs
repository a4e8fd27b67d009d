//! Looking up Unicode characters by name: each line of the list is a
//! character followed by the words of its name, matched after stemming.
use vstd::prelude::*;
use crate::stardict::{Entry, SearchAble};
use crate::text::{lower_of, push_str, split_chars, split_on, to_lower};

verus! {

/// What the English Snowball stemmer yields for a word.
pub uninterp spec fn english_stem_of(s: Seq<char>) -> Seq<char>;

/// Relies on `rust_stemmers::Stemmer` with `Algorithm::English`: the stem
/// depends on the word alone.
#[verifier::external_body]
fn stem_english(s: &str) -> (r: String)
    ensures
        r@ == english_stem_of(s@),
{
    rust_stemmers::Stemmer::create(rust_stemmers::Algorithm::English).stem(s).into_owned()
}

/// The lines of a character list.
#[derive(Debug, Clone)]
pub struct UnicodePicker {
    pub lines: Vec<String>,
}

/// The key a word is matched by: the stem of its lowercase form.
pub open spec fn word_key(w: Seq<char>) -> Seq<char> {
    english_stem_of(lower_of(w))
}

/// One of the space-separated words from the `j`-th on has key `k`.
pub open spec fn token_hit(toks: Seq<Seq<char>>, k: Seq<char>, j: int) -> bool
    decreases toks.len() - j,
{
    if j < 0 || j >= toks.len() {
        false
    } else {
        word_key(toks[j]) == k || token_hit(toks, k, j + 1)
    }
}

/// A line names the key: one of its words after the first has that key.
pub open spec fn line_hit(line: Seq<char>, k: Seq<char>) -> bool {
    token_hit(split_chars(line, ' '), k, 1)
}

/// The matching lines among the first `n`, each followed by a line break.
pub open spec fn matches_upto(lines: Seq<Seq<char>>, k: Seq<char>, n: int) -> Seq<char>
    decreases n,
{
    if n <= 0 || n > lines.len() {
        seq![]
    } else if line_hit(lines[n - 1], k) {
        matches_upto(lines, k, n - 1) + lines[n - 1] + seq!['\n']
    } else {
        matches_upto(lines, k, n - 1)
    }
}

fn line_hit_exec(line: &str, k: &String) -> (r: bool)
    ensures
        r == line_hit(line@, k@),
{
    let toks = split_on(line, ' ');
    let ghost ts = toks@.map_values(|t: String| t@);
    let mut j = toks.len();
    let mut hit = false;
    while j > 1
        invariant
            1 <= j <= toks@.len() || j == toks@.len(),
            ts == toks@.map_values(|t: String| t@),
            ts == split_chars(line@, ' '),
            hit == token_hit(ts, k@, j as int),
        decreases j,
    {
        j = j - 1;
        assert(ts[j as int] == toks@[j as int]@);
        let l = to_lower(toks[j].as_str());
        let st = stem_english(l.as_str());
        hit = st == *k || hit;
    }
    proof {
        if toks@.len() <= 1 {
            assert(!token_hit(ts, k@, 1));
        }
    }
    hit
}

impl UnicodePicker {
    /// Every line naming `word` (compared by stem, case-insensitively), each
    /// followed by a line break; `None` when no line does.
    pub fn exact_lookup(&self, word: &str) -> (r: Option<Entry>)
        ensures
            ({
                let ls = self.lines@.map_values(|l: String| l@);
                let text = matches_upto(ls, word_key(word@), ls.len() as int);
                &&& r is Some <==> text.len() > 0
                &&& r is Some ==> r->0.word@ == word@ && r->0.trans@ == text
            }),
    {
        let ghost ls = self.lines@.map_values(|l: String| l@);
        let lw = to_lower(word);
        let k = stem_english(lw.as_str());
        let mut s = String::new();
        let mut count: usize = 0;
        let n = self.lines.len();
        let mut i: usize = 0;
        while i < n
            invariant
                i <= n,
                n == self.lines@.len(),
                ls == self.lines@.map_values(|l: String| l@),
                k@ == word_key(word@),
                s@ == matches_upto(ls, k@, i as int),
                (count == 0) == (s@.len() == 0),
            decreases n - i,
        {
            assert(ls[i as int] == self.lines@[i as int]@);
            if line_hit_exec(self.lines[i].as_str(), &k) {
                push_str(&mut s, self.lines[i].as_str());
                push_str(&mut s, "\n");
                proof {
                    reveal_strlit("\n");
                }
                count = 1;
            }
            i = i + 1;
        }
        if count == 0 {
            None
        } else {
            let mut w = String::new();
            push_str(&mut w, word);
            assert(w@ =~= word@);
            Some(Entry { word: w, trans: s })
        }
    }
}

impl SearchAble for UnicodePicker {
    fn exact_lookup(&self, word: &str) -> Option<Entry> {
        UnicodePicker::exact_lookup(self, word)
    }

    fn fuzzy_lookup(&self, target_word: &str) -> Vec<Entry> {
        Vec::new()
    }

    fn dict_name(&self) -> &str {
        "unicodepicker"
    }
}

} // verus!
