//! Reading (headword, content) records from the two plain-text source layouts.
use vstd::prelude::*;
use crate::builder::{records_view, Diagnostic, Record};
use crate::text::{
    is_empty_text,    after_tab, before_tab, has_tab, push_str, replace_escaped_newlines, split_chars, split_at_tab,
    split_on, trim, trimmed_of, unescape_newlines,
};

verus! {

pub open spec fn lines_view(lines: Seq<String>) -> Seq<Seq<char>> {
    lines.map_values(|l: String| l@)
}

/// A line that holds only whitespace.
pub open spec fn is_blank(l: Seq<char>) -> bool {
    trimmed_of(l).len() == 0
}

/// The number of non-blank lines from `j` on, up to the first blank one.
pub open spec fn block_len(lines: Seq<Seq<char>>, j: int) -> nat
    decreases lines.len() - j,
{
    if j < 0 || j >= lines.len() || is_blank(lines[j]) {
        0
    } else {
        1 + block_len(lines, j + 1)
    }
}

/// The first blank line at or after `j`, or the number of lines.
pub open spec fn block_end(lines: Seq<Seq<char>>, j: int) -> int {
    j + block_len(lines, j)
}

/// The lines joined with line breaks.
pub open spec fn join_lines(ls: Seq<Seq<char>>) -> Seq<char>
    decreases ls.len(),
{
    if ls.len() == 0 {
        seq![]
    } else if ls.len() == 1 {
        ls[0]
    } else {
        join_lines(ls.drop_last()) + seq!['\n'] + ls.last()
    }
}

/// The non-empty pieces of the first `k`, each once, in order of first appearance.
pub open spec fn distinct_nonempty(ps: Seq<Seq<char>>, k: int) -> Seq<Seq<char>>
    decreases k,
{
    if k <= 0 || k > ps.len() {
        seq![]
    } else {
        let d = distinct_nonempty(ps, k - 1);
        if ps[k - 1].len() == 0 || d.contains(ps[k - 1]) {
            d
        } else {
            d.push(ps[k - 1])
        }
    }
}

/// The headwords of a block's first line: separated by `|`, each trimmed,
/// empty ones dropped, each once.
pub open spec fn header_words(h: Seq<char>) -> Seq<Seq<char>> {
    let ps = split_chars(h, '|').map_values(|p: Seq<char>| trimmed_of(p));
    distinct_nonempty(ps, ps.len() as int)
}

/// The records of the blocks from line `i` on. A block is a first line of
/// headwords and the lines after it up to a blank line; blocks without
/// headwords or content give none.
pub open spec fn block_records_from(lines: Seq<Seq<char>>, i: int) -> Seq<(Seq<char>, Seq<char>)>
    decreases lines.len() - i,
{
    if i < 0 || i >= lines.len() {
        seq![]
    } else if is_blank(lines[i]) {
        block_records_from(lines, i + 1)
    } else {
        let e = block_end(lines, i + 1);
        let content = join_lines(lines.subrange(i + 1, e));
        let ws = header_words(trimmed_of(lines[i]));
        let here = if content.len() == 0 {
            seq![]
        } else {
            ws.map_values(|w: Seq<char>| (w, content))
        };
        if e >= lines.len() {
            here
        } else {
            here + block_records_from(lines, e + 1)
        }
    }
}

/// The records of the lines from `i` on, one per line `headword<TAB>content`
/// once trimmed, with `\n` escapes in the content turned into line breaks.
/// Lines without a tab or with empty content give none.
pub open spec fn tabular_records_from(lines: Seq<Seq<char>>, i: int) -> Seq<(Seq<char>, Seq<char>)>
    decreases lines.len() - i,
{
    if i < 0 || i >= lines.len() {
        seq![]
    } else {
        let t = trimmed_of(lines[i]);
        let rest = tabular_records_from(lines, i + 1);
        if t.len() == 0 || !has_tab(t) {
            rest
        } else {
            let c = unescape_newlines(after_tab(t));
            if c.len() == 0 {
                rest
            } else {
                seq![(before_tab(t), c)] + rest
            }
        }
    }
}

proof fn lemma_block_end(lines: Seq<Seq<char>>, j: int)
    requires
        0 <= j <= lines.len(),
    ensures
        j <= block_end(lines, j) <= lines.len(),
        forall|k: int| j <= k < block_end(lines, j) ==> !is_blank(#[trigger] lines[k]),
        block_end(lines, j) < lines.len() ==> is_blank(lines[block_end(lines, j)]),
    decreases lines.len() - j,
{
    if j < lines.len() && !is_blank(lines[j]) {
        lemma_block_end(lines, j + 1);
    }
    assert(block_end(lines, j) == j + block_len(lines, j));
}

/// The distinct non-empty trimmed pieces of a block's first line.
fn header_words_exec(header: &str) -> (r: Vec<String>)
    ensures
        r@.map_values(|w: String| w@) == header_words(header@),
{
    let pieces = split_on(header, '|');
    let ghost ps = split_chars(header@, '|').map_values(|p: Seq<char>| trimmed_of(p));
    let mut words: Vec<String> = Vec::new();
    let mut k: usize = 0;
    while k < pieces.len()
        invariant
            k <= pieces@.len(),
            pieces@.map_values(|p: String| p@) == split_chars(header@, '|'),
            ps == split_chars(header@, '|').map_values(|p: Seq<char>| trimmed_of(p)),
            ps.len() == pieces@.len(),
            words@.map_values(|w: String| w@) == distinct_nonempty(ps, k as int),
        decreases pieces@.len() - k,
    {
        let t = trim(pieces[k].as_str());
        assert(t@ == ps[k as int]);
        let ghost d = words@.map_values(|w: String| w@);
        let mut seen = false;
        let mut j: usize = 0;
        while j < words.len()
            invariant
                j <= words@.len(),
                d == words@.map_values(|w: String| w@),
                seen == (exists|x: int| 0 <= x < j && d[x] == t@),
            decreases words@.len() - j,
        {
            assert(d[j as int] == words@[j as int]@);
            if words[j] == t {
                seen = true;
            }
            j = j + 1;
        }
        assert(seen == d.contains(t@));
        if !is_empty_text(t.as_str()) && !seen {
            words.push(t);
            assert(words@.map_values(|w: String| w@) =~= d.push(ps[k as int]));
        }
        k = k + 1;
    }
    words
}

/// The records of the blocks of `lines`, and a note on each block skipped.
pub fn block_records(lines: &Vec<String>) -> (r: (Vec<Record>, Vec<Diagnostic>))
    ensures
        records_view(r.0@) == block_records_from(lines_view(lines@), 0),
{
    let ghost ls = lines_view(lines@);
    let mut recs: Vec<Record> = Vec::new();
    let mut diags: Vec<Diagnostic> = Vec::new();
    let n = lines.len();
    let mut i: usize = 0;
    while i < n
        invariant
            n == lines@.len(),
            ls == lines_view(lines@),
            ls.len() == n,
            i <= n,
            block_records_from(ls, 0) == records_view(recs@) + block_records_from(ls, i as int),
        decreases n - i,
    {
        let head = trim(lines[i].as_str());
        assert(ls[i as int] == lines@[i as int]@);
        if is_empty_text(head.as_str()) {
            i = i + 1;
        } else {
            proof {
                lemma_block_end(ls, i + 1);
            }
            let mut content = String::new();
            let mut j: usize = i + 1;
            while j < n && !is_empty_text(trim(lines[j].as_str()).as_str())
                invariant
                    n == lines@.len(),
                    ls == lines_view(lines@),
                    ls.len() == n,
                    i < n,
                    i + 1 <= j <= n,
                    j <= block_end(ls, i + 1),
                    block_end(ls, i + 1) <= n,
                    forall|k: int| i + 1 <= k < block_end(ls, i + 1) ==> !is_blank(#[trigger] ls[k]),
                    block_end(ls, i + 1) < n ==> is_blank(ls[block_end(ls, i + 1)]),
                    content@ == join_lines(ls.subrange(i + 1, j as int)),
                decreases n - j,
            {
                assert(ls[j as int] == lines@[j as int]@);
                let ghost before = content@;
                if j > i + 1 {
                    push_str(&mut content, "\n");
                }
                push_str(&mut content, lines[j].as_str());
                proof {
                    reveal_strlit("\n");
                    let sub = ls.subrange(i + 1, j + 1);
                    assert(sub.drop_last() =~= ls.subrange(i + 1, j as int));
                    if j == i + 1 {
                        assert(content@ =~= join_lines(sub));
                    } else {
                        assert(content@ =~= join_lines(sub));
                    }
                }
                j = j + 1;
            }
            proof {
                if j < n {
                    assert(ls[j as int] == lines@[j as int]@);
                    assert(is_blank(ls[j as int]));
                }
                assert(j == block_end(ls, i + 1));
            }
            let ws = header_words_exec(head.as_str());
            let ghost here_words = ws@.map_values(|w: String| w@);
            let ghost cv = content@;
            let ghost before = records_view(recs@);
            if is_empty_text(content.as_str()) {
                diags.push(Diagnostic::NoContent(head.clone()));
            } else {
                if ws.len() == 0 {
                    diags.push(Diagnostic::NoHeadword(head.clone()));
                }
                let mut t: usize = 0;
                while t < ws.len()
                    invariant
                        t <= ws@.len(),
                        here_words == ws@.map_values(|w: String| w@),
                        content@ == cv,
                        records_view(recs@) == before + here_words.subrange(0, t as int).map_values(|w: Seq<char>| (w, cv)),
                    decreases ws@.len() - t,
                {
                    let ghost before_t = records_view(recs@);
                    let wc = ws[t].clone();
                    let cc = content.clone();
                    assert(wc@ == here_words[t as int]);
                    recs.push(Record { word: wc, content: cc });
                    assert(records_view(recs@) =~= before_t.push((here_words[t as int], cv)));
                    assert(here_words.subrange(0, t + 1) =~= here_words.subrange(0, t as int).push(here_words[t as int]));
                    t = t + 1;
                    assert(records_view(recs@) =~= before + here_words.subrange(0, t as int).map_values(|w: Seq<char>| (w, cv)));
                }
                assert(here_words.subrange(0, t as int) =~= here_words);
            }
            proof {
                let here = if cv.len() == 0 {
                    Seq::<(Seq<char>, Seq<char>)>::empty()
                } else {
                    here_words.map_values(|w: Seq<char>| (w, cv))
                };
                if cv.len() == 0 {
                    assert(records_view(recs@) =~= before + here);
                }
                if j >= n {
                    assert(here + block_records_from(ls, j + 1) =~= here);
                }
                assert(block_records_from(ls, i as int) == here + block_records_from(ls, j + 1));
                assert(records_view(recs@) + block_records_from(ls, j + 1) =~= before + (here + block_records_from(ls, j + 1)));
            }
            if j >= n {
                i = n;
            } else {
                i = j + 1;
            }
        }
    }
    proof {
        assert(records_view(recs@) + Seq::<(Seq<char>, Seq<char>)>::empty() =~= records_view(recs@));
    }
    (recs, diags)
}

/// The records of the lines of tabular text, and a note on each line without content.
pub fn tabular_records(lines: &Vec<String>) -> (r: (Vec<Record>, Vec<Diagnostic>))
    ensures
        records_view(r.0@) == tabular_records_from(lines_view(lines@), 0),
{
    let ghost ls = lines_view(lines@);
    let mut recs: Vec<Record> = Vec::new();
    let mut diags: Vec<Diagnostic> = Vec::new();
    let n = lines.len();
    let mut i: usize = 0;
    while i < n
        invariant
            n == lines@.len(),
            ls == lines_view(lines@),
            i <= n,
            tabular_records_from(ls, 0) == records_view(recs@) + tabular_records_from(ls, i as int),
        decreases n - i,
    {
        assert(ls[i as int] == lines@[i as int]@);
        let t = trim(lines[i].as_str());
        let ghost before = records_view(recs@);
        if !is_empty_text(t.as_str()) {
            match split_at_tab(t.as_str()) {
                Some((word, rest)) => {
                    let c = replace_escaped_newlines(rest.as_str());
                    if is_empty_text(c.as_str()) {
                        diags.push(Diagnostic::NoContent(t.clone()));
                    } else {
                        recs.push(Record { word, content: c });
                        assert(records_view(recs@) =~= before.push((before_tab(t@), unescape_newlines(after_tab(t@)))));
                    }
                },
                None => {},
            }
        }
        proof {
            assert(records_view(recs@) + tabular_records_from(ls, i + 1) =~= before + tabular_records_from(ls, i as int));
        }
        i = i + 1;
    }
    proof {
        assert(records_view(recs@) + Seq::<(Seq<char>, Seq<char>)>::empty() =~= records_view(recs@));
    }
    (recs, diags)
}

} // verus!
