//! The lexical scanner behind semantic highlighting: a single greedy pass
//! over one line that classifies operators, numeric runs and known keywords.

use crate::text::{alphabetic, alphanumeric, ascii_digit, is_alnum, is_alpha, is_digit};
use vstd::prelude::*;

verus! {

/// The highlight class of a span, in the order of the highlighting legend.
#[derive(Clone, Copy, Debug, PartialEq, Eq, Structural)]
pub enum TokenKind {
    Function,
    Operator,
    Number,
}

impl TokenKind {
    pub open spec fn spec_index(self) -> u32 {
        match self {
            TokenKind::Function => 0,
            TokenKind::Operator => 1,
            TokenKind::Number => 2,
        }
    }

    /// Position of this class in the highlighting legend.
    pub fn index(&self) -> (r: u32)
        ensures
            r == self.spec_index(),
    {
        match self {
            TokenKind::Function => 0,
            TokenKind::Operator => 1,
            TokenKind::Number => 2,
        }
    }
}

/// A classified run of characters within one line, in character columns.
#[derive(Clone, Copy, Debug, PartialEq, Eq, Structural)]
pub struct Span {
    pub start: usize,
    pub length: usize,
    pub kind: TokenKind,
}

pub open spec fn is_operator(c: char) -> bool {
    c == '+' || c == '-' || c == '*' || c == '/' || c == '='
}

pub open spec fn is_number_char(c: char) -> bool {
    is_digit(c) || c == '.'
}

pub open spec fn is_word_char(c: char) -> bool {
    is_alnum(c) || c == '_'
}

/// End (exclusive) of the run of digits and dots of `l` from `i`.
pub open spec fn number_end(l: Seq<char>, i: int) -> int
    decreases l.len() - i,
{
    if 0 <= i < l.len() && is_number_char(l[i]) {
        number_end(l, i + 1)
    } else {
        i
    }
}

/// End (exclusive) of the run of word characters of `l` from `i`.
pub open spec fn word_end(l: Seq<char>, i: int) -> int
    decreases l.len() - i,
{
    if 0 <= i < l.len() && is_word_char(l[i]) {
        word_end(l, i + 1)
    } else {
        i
    }
}

proof fn lemma_number_end(l: Seq<char>, i: int)
    requires
        0 <= i <= l.len(),
    ensures
        i <= number_end(l, i) <= l.len(),
    decreases l.len() - i,
{
    if i < l.len() && is_number_char(l[i]) {
        lemma_number_end(l, i + 1);
    }
}

proof fn lemma_word_end(l: Seq<char>, i: int)
    requires
        0 <= i <= l.len(),
    ensures
        i <= word_end(l, i) <= l.len(),
    decreases l.len() - i,
{
    if i < l.len() && is_word_char(l[i]) {
        lemma_word_end(l, i + 1);
    }
}

pub open spec fn span(start: int, end: int, kind: TokenKind) -> Span {
    Span { start: start as usize, length: (end - start) as usize, kind }
}

/// The spans of `l` from column `i` on, given the known keywords `kw`:
/// an operator character is one span, a digit opens a number span over the
/// following digits and dots, a letter opens a word over the following word
/// characters that is a span only when it is a keyword, and any other
/// character is skipped.
pub open spec fn scan_from(l: Seq<char>, kw: Seq<Seq<char>>, i: int) -> Seq<Span>
    decreases l.len() - i via scan_from_decreases
{
    if !(0 <= i < l.len()) {
        Seq::empty()
    } else if is_operator(l[i]) {
        seq![span(i, i + 1, TokenKind::Operator)] + scan_from(l, kw, i + 1)
    } else if is_digit(l[i]) {
        let e = number_end(l, i + 1);
        seq![span(i, e, TokenKind::Number)] + scan_from(l, kw, e)
    } else if is_alpha(l[i]) {
        let e = word_end(l, i + 1);
        if kw.contains(l.subrange(i, e)) {
            seq![span(i, e, TokenKind::Function)] + scan_from(l, kw, e)
        } else {
            scan_from(l, kw, e)
        }
    } else {
        scan_from(l, kw, i + 1)
    }
}

#[via_fn]
proof fn scan_from_decreases(l: Seq<char>, kw: Seq<Seq<char>>, i: int) {
    if 0 <= i < l.len() {
        lemma_number_end(l, i + 1);
        lemma_word_end(l, i + 1);
    }
}

/// The spans of the whole line `l`.
pub open spec fn scan(l: Seq<char>, kw: Seq<Seq<char>>) -> Seq<Span> {
    scan_from(l, kw, 0)
}

/// Spans lie inside a line of `len` characters, are not empty, and come in
/// strictly increasing, non-overlapping order.
pub open spec fn well_placed(spans: Seq<Span>, len: int) -> bool {
    &&& forall|k: int|
        0 <= k < spans.len() ==> #[trigger] spans[k].length > 0 && spans[k].start
            + spans[k].length <= len
    &&& forall|j: int, k: int|
        0 <= j < k < spans.len() ==> #[trigger] spans[j].start + spans[j].length
            <= #[trigger] spans[k].start
}

proof fn lemma_scan_from_placed(l: Seq<char>, kw: Seq<Seq<char>>, i: int)
    requires
        0 <= i <= l.len() <= usize::MAX,
    ensures
        well_placed(scan_from(l, kw, i), l.len() as int),
        forall|k: int|
            0 <= k < scan_from(l, kw, i).len() ==> #[trigger] scan_from(l, kw, i)[k].start >= i,
    decreases l.len() - i,
{
    if i < l.len() {
        let c = l[i];
        let e = if is_operator(c) {
            i + 1
        } else if is_digit(c) {
            number_end(l, i + 1)
        } else if is_alpha(c) {
            word_end(l, i + 1)
        } else {
            i + 1
        };
        lemma_number_end(l, i + 1);
        lemma_word_end(l, i + 1);
        lemma_scan_from_placed(l, kw, e);
        let rest = scan_from(l, kw, e);
        let all = scan_from(l, kw, i);
        if all.len() != rest.len() {
            assert(all == seq![all[0]] + rest);
            assert(all[0].start == i && all[0].start + all[0].length == e);
            assert forall|k: int| 0 < k < all.len() implies #[trigger] all[k] == rest[k - 1] by {}
        } else {
            assert(all == rest);
        }
    }
}

/// Scanning a line gives spans that lie inside it, are not empty, and come
/// in strictly increasing, non-overlapping order.
pub proof fn lemma_scan_well_placed(l: Seq<char>, kw: Seq<Seq<char>>)
    requires
        l.len() <= usize::MAX,
    ensures
        well_placed(scan(l, kw), l.len() as int),
{
    lemma_scan_from_placed(l, kw, 0);
}


/// The keywords of `keywords`, as character sequences.
pub open spec fn keyword_view(keywords: Seq<Vec<char>>) -> Seq<Seq<char>> {
    keywords.map_values(|k: Vec<char>| k@)
}

/// Whether the columns `a..b` of `l` spell `k`.
fn spells(l: &[char], a: usize, b: usize, k: &[char]) -> (r: bool)
    requires
        a <= b <= l@.len(),
    ensures
        r == (l@.subrange(a as int, b as int) == k@),
{
    if b - a != k.len() {
        return false;
    }
    let mut j: usize = 0;
    while j < k.len()
        invariant
            a <= b <= l@.len(),
            b - a == k@.len(),
            j <= k@.len(),
            forall|m: int| 0 <= m < j ==> l@[a + m] == k@[m],
        decreases k@.len() - j,
    {
        if l[a + j] != k[j] {
            assert(l@.subrange(a as int, b as int)[j as int] != k@[j as int]);
            return false;
        }
        j = j + 1;
    }
    assert(l@.subrange(a as int, b as int) =~= k@);
    true
}

/// Whether the columns `a..b` of `l` spell one of `keywords`.
fn is_keyword(l: &[char], a: usize, b: usize, keywords: &Vec<Vec<char>>) -> (r: bool)
    requires
        a <= b <= l@.len(),
    ensures
        r == keyword_view(keywords@).contains(l@.subrange(a as int, b as int)),
{
    let ghost w = l@.subrange(a as int, b as int);
    let mut i: usize = 0;
    while i < keywords.len()
        invariant
            a <= b <= l@.len(),
            w == l@.subrange(a as int, b as int),
            i <= keywords@.len(),
            forall|m: int| 0 <= m < i ==> keywords@[m]@ != w,
        decreases keywords@.len() - i,
    {
        if spells(l, a, b, keywords[i].as_slice()) {
            assert(keyword_view(keywords@)[i as int] == w);
            return true;
        }
        i = i + 1;
    }
    assert forall|m: int| 0 <= m < keyword_view(keywords@).len() implies keyword_view(
        keywords@,
    )[m] != w by {
        assert(keywords@[m]@ != w);
    }
    false
}

/// Classifies the characters of one line into spans (see `scan_from`).
pub fn scan_line(l: &[char], keywords: &Vec<Vec<char>>) -> (r: Vec<Span>)
    ensures
        r@ == scan(l@, keyword_view(keywords@)),
{
    let ghost kw = keyword_view(keywords@);
    let n = l.len();
    let mut out: Vec<Span> = Vec::new();
    let mut i: usize = 0;
    while i < n
        invariant
            n == l@.len(),
            kw == keyword_view(keywords@),
            i <= n,
            out@ + scan_from(l@, kw, i as int) == scan(l@, kw),
        decreases n - i,
    {
        let c = l[i];
        let ghost before = out@;
        let ghost here = scan_from(l@, kw, i as int);
        if c == '+' || c == '-' || c == '*' || c == '/' || c == '=' {
            let ghost rest = scan_from(l@, kw, i + 1);
            out.push(Span { start: i, length: 1, kind: TokenKind::Operator });
            i = i + 1;
            assert(out@ + rest =~= out@.drop_last() + (seq![out@.last()] + rest));
        } else if ascii_digit(c) {
            let mut e: usize = i + 1;
            while e < n && (ascii_digit(l[e]) || l[e] == '.')
                invariant
                    n == l@.len(),
                    i < e <= n,
                    number_end(l@, e as int) == number_end(l@, i + 1),
                decreases n - e,
            {
                e = e + 1;
            }
            assert(number_end(l@, e as int) == e);
            let ghost rest = scan_from(l@, kw, e as int);
            out.push(Span { start: i, length: e - i, kind: TokenKind::Number });
            i = e;
            assert(out@ + rest =~= out@.drop_last() + (seq![out@.last()] + rest));
        } else if alphabetic(c) {
            let mut e: usize = i + 1;
            while e < n && (alphanumeric(l[e]) || l[e] == '_')
                invariant
                    n == l@.len(),
                    i < e <= n,
                    word_end(l@, e as int) == word_end(l@, i + 1),
                decreases n - e,
            {
                e = e + 1;
            }
            assert(word_end(l@, e as int) == e);
            let ghost rest = scan_from(l@, kw, e as int);
            if is_keyword(l, i, e, keywords) {
                out.push(Span { start: i, length: e - i, kind: TokenKind::Function });
                assert(here == seq![out@.last()] + rest);
                assert(out@ + rest =~= before + (seq![out@.last()] + rest));
            } else {
                assert(here == rest);
            }
            i = e;
        } else {
            i = i + 1;
        }
    }
    assert(out@ + scan_from(l@, kw, i as int) =~= out@);
    out
}

} // verus!
