//! Semantic tokens for a whole document: the scanner's spans of every line,
//! in order, in the editor's delta-encoded form.

use crate::documents::DocumentStore;
use crate::knowledge::{entries_view, flatten, Categories, KnowledgeBase};
use crate::scanner::{keyword_view, lemma_scan_well_placed, scan, scan_line, Span};
use crate::text::{chars_of, line_count, lines_of, split_lines};
use vstd::prelude::*;

verus! {

/// A span in delta-encoded form: its line relative to the line of the span
/// before it, and its start relative to that span's start when both are on
/// the same line.
#[derive(Clone, Copy, Debug, PartialEq, Eq, Structural)]
pub struct EncodedToken {
    pub delta_line: usize,
    pub delta_start: usize,
    pub length: usize,
    pub token_type: u32,
}

/// The spans of `spans`, each tagged with line `n`.
pub open spec fn tag(n: int, spans: Seq<Span>) -> Seq<(usize, Span)> {
    spans.map_values(|s: Span| (n as usize, s))
}

/// The spans of the first `n` lines of `ls`, each with its line.
pub open spec fn doc_spans(ls: Seq<Seq<char>>, kw: Seq<Seq<char>>, n: int) -> Seq<(usize, Span)>
    decreases n,
{
    if n <= 0 {
        Seq::empty()
    } else {
        doc_spans(ls, kw, n - 1) + tag(n - 1, scan(ls[n - 1], kw))
    }
}

/// Spans come by line, and within a line by strictly increasing start.
pub open spec fn ordered(toks: Seq<(usize, Span)>) -> bool {
    forall|j: int, k: int|
        0 <= j < k < toks.len() ==> #[trigger] toks[j].0 <= #[trigger] toks[k].0 && (toks[j].0
            == toks[k].0 ==> toks[j].1.start < toks[k].1.start)
}

/// The encoded form of span `k` of `toks`. The first span is taken
/// relative to line 0, column 0; each later one relative to the span before
/// it: on the same line, delta 0 and the start's distance from that span's
/// start; on another line, the distance between the two spans' lines and
/// the absolute start.
pub open spec fn encode_at(toks: Seq<(usize, Span)>, k: int) -> EncodedToken {
    let prev_line: int = if k == 0 {
        0
    } else {
        toks[k - 1].0 as int
    };
    let prev_start: int = if k == 0 {
        0
    } else {
        toks[k - 1].1.start as int
    };
    let t = toks[k];
    if t.0 == prev_line {
        EncodedToken {
            delta_line: 0,
            delta_start: (t.1.start - prev_start) as usize,
            length: t.1.length,
            token_type: t.1.kind.spec_index(),
        }
    } else {
        EncodedToken {
            delta_line: (t.0 - prev_line) as usize,
            delta_start: t.1.start,
            length: t.1.length,
            token_type: t.1.kind.spec_index(),
        }
    }
}

pub open spec fn encode(toks: Seq<(usize, Span)>) -> Seq<EncodedToken> {
    Seq::new(toks.len(), |k: int| encode_at(toks, k))
}

/// The keywords that the scanner knows: every keyword of every category.
pub open spec fn keyword_keys(cats: Categories) -> Seq<Seq<char>> {
    flatten(cats).map_values(|p: (Seq<char>, Seq<char>)| p.0)
}

/// The encoded tokens of the text `t`.
pub open spec fn tokens_answer(cats: Categories, t: Seq<char>) -> Seq<EncodedToken> {
    encode(doc_spans(lines_of(t), keyword_keys(cats), line_count(t)))
}

proof fn lemma_doc_spans_ordered(ls: Seq<Seq<char>>, kw: Seq<Seq<char>>, n: int)
    requires
        0 <= n <= ls.len(),
        n <= usize::MAX,
        forall|i: int| 0 <= i < ls.len() ==> #[trigger] ls[i].len() <= usize::MAX,
    ensures
        ordered(doc_spans(ls, kw, n)),
        forall|k: int|
            0 <= k < doc_spans(ls, kw, n).len() ==> #[trigger] doc_spans(ls, kw, n)[k].0 < n,
    decreases n,
{
    if n > 0 {
        lemma_doc_spans_ordered(ls, kw, n - 1);
        let l = ls[n - 1];
        lemma_scan_well_placed(l, kw);
        let a = doc_spans(ls, kw, n - 1);
        let b = tag(n - 1, scan(l, kw));
        let all = doc_spans(ls, kw, n);
        assert(all == a + b);
        assert forall|k: int| 0 <= k < all.len() implies (if k < a.len() {
            all[k] == a[k]
        } else {
            all[k] == b[k - a.len()] && all[k].0 == n - 1 && all[k].1 == scan(l, kw)[k - a.len()]
        }) by {}
        assert forall|j: int, k: int| 0 <= j < k < all.len() implies #[trigger] all[j].0
            <= #[trigger] all[k].0 && (all[j].0 == all[k].0 ==> all[j].1.start < all[k].1.start) by {
            if k >= a.len() && j >= a.len() {
                let s = scan(l, kw);
                assert(s[j - a.len()].start + s[j - a.len()].length <= s[k - a.len()].start);
            }
        }
    }
}

/// The delta-encoded form of `toks`.
fn encode_tokens(toks: &Vec<(usize, Span)>) -> (r: Vec<EncodedToken>)
    requires
        ordered(toks@),
    ensures
        r@ == encode(toks@),
{
    let mut out: Vec<EncodedToken> = Vec::new();
    let mut cur_line: usize = 0;
    let mut cur_start: usize = 0;
    let mut k: usize = 0;
    while k < toks.len()
        invariant
            ordered(toks@),
            k <= toks@.len(),
            out@.len() == k,
            k == 0 ==> cur_line == 0 && cur_start == 0,
            k > 0 ==> cur_line == toks@[k - 1].0 && cur_start == toks@[k - 1].1.start,
            forall|m: int| 0 <= m < k ==> #[trigger] out@[m] == encode_at(toks@, m),
        decreases toks@.len() - k,
    {
        let (line, span) = toks[k];
        if k > 0 {
            assert(toks@[k - 1].0 <= toks@[k as int].0);
        }
        let e = if line == cur_line {
            EncodedToken {
                delta_line: 0,
                delta_start: span.start - cur_start,
                length: span.length,
                token_type: span.kind.index(),
            }
        } else {
            EncodedToken {
                delta_line: line - cur_line,
                delta_start: span.start,
                length: span.length,
                token_type: span.kind.index(),
            }
        };
        out.push(e);
        cur_line = line;
        cur_start = span.start;
        k = k + 1;
    }
    assert(out@ =~= encode(toks@));
    out
}


/// The keywords that the scanner knows, as characters.
fn keyword_chars(kb: &KnowledgeBase) -> (r: Vec<Vec<char>>)
    ensures
        keyword_view(r@) == keyword_keys(kb@),
{
    let all = kb.get_all_keywords();
    let ghost flat = flatten(kb@);
    let mut out: Vec<Vec<char>> = Vec::new();
    let mut i: usize = 0;
    while i < all.len()
        invariant
            flat == entries_view(all@),
            i <= all@.len(),
            out@.len() == i,
            forall|m: int| 0 <= m < i ==> #[trigger] out@[m]@ == flat[m].0,
        decreases all@.len() - i,
    {
        out.push(chars_of(all[i].0.as_str()));
        i = i + 1;
    }
    assert(keyword_view(out@) =~= keyword_keys(kb@));
    out
}

/// The spans of every line of `lines`, each with its line.
fn document_spans(lines: &Vec<Vec<char>>, keywords: &Vec<Vec<char>>) -> (r: Vec<(usize, Span)>)
    ensures
        r@ == doc_spans(lines@.map_values(|l: Vec<char>| l@), keyword_view(keywords@), lines@.len() as int),
{
    let ghost ls = lines@.map_values(|l: Vec<char>| l@);
    let ghost kw = keyword_view(keywords@);
    let mut out: Vec<(usize, Span)> = Vec::new();
    let mut i: usize = 0;
    while i < lines.len()
        invariant
            ls == lines@.map_values(|l: Vec<char>| l@),
            kw == keyword_view(keywords@),
            i <= lines@.len(),
            out@ == doc_spans(ls, kw, i as int),
        decreases lines@.len() - i,
    {
        let spans = scan_line(lines[i].as_slice(), keywords);
        let ghost base = out@;
        assert(ls[i as int] == lines@[i as int]@);
        let mut j: usize = 0;
        while j < spans.len()
            invariant
                i < lines@.len(),
                j <= spans@.len(),
                out@ == base + tag(i as int, spans@.subrange(0, j as int)),
            decreases spans@.len() - j,
        {
            out.push((i, spans[j]));
            j = j + 1;
            assert(out@ =~= base + tag(i as int, spans@.subrange(0, j as int)));
        }
        assert(spans@.subrange(0, j as int) =~= spans@);
        i = i + 1;
    }
    out
}

/// The encoded semantic tokens of the document `uri`, or nothing for an
/// unknown document.
pub fn semantic_tokens_full(kb: &KnowledgeBase, store: &DocumentStore, uri: &str) -> (r: Option<Vec<EncodedToken>>)
    ensures
        match store.content(uri@) {
            Some(t) => r matches Some(v) && v@ == tokens_answer(kb@, t),
            None => r is None,
        },
{
    let content = match store.get_document_content(uri) {
        Some(t) => t,
        None => return None,
    };
    Some(document_tokens(kb, content.as_str()))
}

/// The encoded semantic tokens of the text `t`.
pub fn document_tokens(kb: &KnowledgeBase, t: &str) -> (r: Vec<EncodedToken>)
    ensures
        r@ == tokens_answer(kb@, t@),
{
    let cs = chars_of(t);
    let lines = split_lines(cs.as_slice());
    let keywords = keyword_chars(kb);
    let toks = document_spans(&lines, &keywords);
    let ghost ls = lines@.map_values(|l: Vec<char>| l@);
    assert(ls =~= lines_of(t@));
    let n_lines = lines.len();
    assert(ls.len() == n_lines);
    assert forall|i: int| 0 <= i < ls.len() implies #[trigger] ls[i].len() <= usize::MAX by {
        assert(ls[i].len() == lines@[i].len());
    }
    proof {
        lemma_doc_spans_ordered(ls, keyword_view(keywords@), ls.len() as int);
    }
    encode_tokens(&toks)
}

} // verus!
