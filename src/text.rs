//! Character-level helpers: character classes, line splitting and the
//! whitespace-delimited word lookup used by hover.

use vstd::prelude::*;

verus! {

broadcast use vstd::string::group_string_axioms;

/// The characters of `s`, in order.
pub fn chars_of(s: &str) -> (r: Vec<char>)
    ensures
        r@ == s@,
{
    let mut out: Vec<char> = Vec::new();
    for c in it: s.chars()
        invariant
            it.seq() == s@,
            out@ == it.seq().subrange(0, it.index() as int),
    {
        out.push(c);
    }
    out
}


/// Whether `c` has the Unicode `White_Space` property.
pub uninterp spec fn is_space(c: char) -> bool;

/// Whether `c` has the Unicode `Alphabetic` property.
pub uninterp spec fn is_alpha(c: char) -> bool;

/// Whether `c` is alphabetic or numeric in the Unicode sense.
pub uninterp spec fn is_alnum(c: char) -> bool;

/// Relies on `char::is_whitespace`: a function of the character alone.
#[verifier::external_body]
pub(crate) fn whitespace(c: char) -> (r: bool)
    ensures
        r == is_space(c),
{
    c.is_whitespace()
}

/// Relies on `char::is_alphabetic`: a function of the character alone.
#[verifier::external_body]
pub(crate) fn alphabetic(c: char) -> (r: bool)
    ensures
        r == is_alpha(c),
{
    c.is_alphabetic()
}

/// Relies on `char::is_alphanumeric`: a function of the character alone.
#[verifier::external_body]
pub(crate) fn alphanumeric(c: char) -> (r: bool)
    ensures
        r == is_alnum(c),
{
    c.is_alphanumeric()
}

/// Relies on `String::push`: appends the character at the end.
#[verifier::external_body]
pub(crate) fn push_char(s: &mut String, c: char)
    ensures
        final(s)@ == old(s)@.push(c),
{
    s.push(c)
}

/// An ASCII decimal digit.
pub open spec fn is_digit(c: char) -> bool {
    '0' <= c && c <= '9'
}

pub fn ascii_digit(c: char) -> (r: bool)
    ensures
        r == is_digit(c),
{
    '0' <= c && c <= '9'
}

/// The string whose characters are `cs`.
pub fn string_of(cs: &[char]) -> (r: String)
    ensures
        r@ == cs@,
{
    let mut out = String::new();
    let mut i: usize = 0;
    while i < cs.len()
        invariant
            i <= cs@.len(),
            out@ == cs@.subrange(0, i as int),
        decreases cs@.len() - i,
    {
        push_char(&mut out, cs[i]);
        i = i + 1;
        assert(out@ =~= cs@.subrange(0, i as int));
    }
    assert(out@ =~= cs@);
    out
}

/// Whether `p` is a prefix of `s`.
pub open spec fn starts_with(s: Seq<char>, p: Seq<char>) -> bool {
    p.len() <= s.len() && s.subrange(0, p.len() as int) == p
}

pub fn has_prefix(s: &[char], p: &[char]) -> (r: bool)
    ensures
        r == starts_with(s@, p@),
{
    if p.len() > s.len() {
        return false;
    }
    let mut i: usize = 0;
    while i < p.len()
        invariant
            p@.len() <= s@.len(),
            i <= p@.len(),
            forall|j: int| 0 <= j < i ==> s@[j] == p@[j],
        decreases p@.len() - i,
    {
        if s[i] != p[i] {
            return false;
        }
        i = i + 1;
    }
    assert(s@.subrange(0, p@.len() as int) =~= p@);
    true
}

/// Character-wise equality of two character sequences.
pub fn same_chars(a: &[char], b: &[char]) -> (r: bool)
    ensures
        r == (a@ == b@),
{
    if a.len() != b.len() {
        return false;
    }
    let r = has_prefix(a, b);
    assert(a@ =~= a@.subrange(0, b@.len() as int));
    r
}

/// The pieces of `t` between line feeds: one more piece than there are
/// line feeds in `t`.
pub open spec fn pieces(t: Seq<char>) -> Seq<Seq<char>>
    decreases t.len(),
{
    if t.len() == 0 {
        seq![Seq::<char>::empty()]
    } else {
        let p = pieces(t.drop_last());
        if t.last() == '\n' {
            p.push(Seq::<char>::empty())
        } else {
            p.update(p.len() - 1, p.last().push(t.last()))
        }
    }
}

/// A piece without the carriage return that ends it, if any.
pub open spec fn strip_cr(p: Seq<char>) -> Seq<char> {
    if p.len() > 0 && p.last() == '\r' {
        p.drop_last()
    } else {
        p
    }
}

/// The number of lines of `t`: a final line feed ends the last line rather
/// than opening an empty one, and the empty text has no line.
pub open spec fn line_count(t: Seq<char>) -> int {
    let p = pieces(t);
    if p.last().len() == 0 {
        p.len() - 1
    } else {
        p.len() as int
    }
}

/// Line `n` of `t`: a line that a line feed ends loses a carriage return
/// before that line feed.
pub open spec fn line_of(t: Seq<char>, n: int) -> Seq<char> {
    let p = pieces(t);
    if n + 1 < p.len() {
        strip_cr(p[n])
    } else {
        p[n]
    }
}

/// All lines of `t`, in order.
pub open spec fn lines_of(t: Seq<char>) -> Seq<Seq<char>> {
    Seq::new(line_count(t) as nat, |n: int| line_of(t, n))
}

proof fn lemma_pieces_nonempty(t: Seq<char>)
    ensures
        pieces(t).len() >= 1,
    decreases t.len(),
{
    if t.len() > 0 {
        lemma_pieces_nonempty(t.drop_last());
    }
}

/// Splits `t` into its lines, each as characters.
pub fn split_lines(t: &[char]) -> (r: Vec<Vec<char>>)
    ensures
        r@.len() == line_count(t@),
        forall|n: int| 0 <= n < r@.len() ==> #[trigger] r@[n]@ == line_of(t@, n),
{
    let mut done: Vec<Vec<char>> = Vec::new();
    let mut cur: Vec<char> = Vec::new();
    let mut i: usize = 0;
    while i < t.len()
        invariant
            i <= t@.len(),
            pieces(t@.subrange(0, i as int)).len() == done@.len() + 1,
            forall|n: int|
                0 <= n < done@.len() ==> #[trigger] done@[n]@ == pieces(
                    t@.subrange(0, i as int),
                )[n],
            cur@ == pieces(t@.subrange(0, i as int)).last(),
        decreases t@.len() - i,
    {
        let c = t[i];
        proof {
            let s = t@.subrange(0, i as int + 1);
            assert(s.drop_last() =~= t@.subrange(0, i as int));
        }
        if c == '\n' {
            done.push(cur);
            cur = Vec::new();
        } else {
            cur.push(c);
        }
        i = i + 1;
    }
    assert(t@.subrange(0, t@.len() as int) =~= t@);
    proof { lemma_pieces_nonempty(t@); }
    let ended: usize = done.len();
    if cur.len() > 0 {
        done.push(cur);
    }
    let ghost p = pieces(t@);
    let ghost k = p.len() - 1;
    let mut out: Vec<Vec<char>> = Vec::new();
    let mut j: usize = 0;
    while j < done.len()
        invariant
            j <= done@.len(),
            done@.len() == line_count(t@),
            forall|n: int| 0 <= n < done@.len() ==> #[trigger] done@[n]@ == p[n],
            p == pieces(t@),
            ended == p.len() - 1,
            out@.len() == j,
            forall|n: int| 0 <= n < j ==> #[trigger] out@[n]@ == line_of(t@, n),
        decreases done@.len() - j,
    {
        let piece = &done[j];
        let mut line: Vec<char> = piece.clone();
        if j < ended && line.len() > 0 && line[line.len() - 1] == '\r' {
            line.pop();
        }
        out.push(line);
        j = j + 1;
    }
    out
}


/// Start of the run of non-whitespace characters of `l` that reaches up to
/// position `p`.
pub open spec fn run_start(l: Seq<char>, p: int) -> int
    decreases p,
{
    if 0 < p <= l.len() && !is_space(l[p - 1]) {
        run_start(l, p - 1)
    } else {
        p
    }
}

/// End (exclusive) of the run of non-whitespace characters of `l` that
/// starts at or before position `p`.
pub open spec fn run_end(l: Seq<char>, p: int) -> int
    decreases l.len() - p,
{
    if 0 <= p < l.len() && !is_space(l[p]) {
        run_end(l, p + 1)
    } else {
        p
    }
}

/// The non-whitespace position of `l` whose word a cursor at `col` touches:
/// the character under the cursor, or else the one just before it.
pub open spec fn anchor(l: Seq<char>, col: int) -> Option<int> {
    if 0 <= col < l.len() && !is_space(l[col]) {
        Some(col)
    } else if 0 < col <= l.len() && !is_space(l[col - 1]) {
        Some(col - 1)
    } else {
        None
    }
}

/// The whitespace-delimited word of `l` whose span `[start, start + length]`
/// holds `col`, both ends included.
pub open spec fn word_in_line(l: Seq<char>, col: int) -> Option<Seq<char>> {
    match anchor(l, col) {
        Some(p) => Some(l.subrange(run_start(l, p), run_end(l, p))),
        None => None,
    }
}

/// The word at line `line`, column `col` of the text `t`.
pub open spec fn word_at(t: Seq<char>, line: int, col: int) -> Option<Seq<char>> {
    if 0 <= line < line_count(t) {
        word_in_line(line_of(t, line), col)
    } else {
        None
    }
}

proof fn lemma_run_start(l: Seq<char>, s: int, p: int)
    requires
        0 <= s <= p < l.len(),
        s == 0 || is_space(l[s - 1]),
        forall|j: int| s <= j <= p ==> !is_space(#[trigger] l[j]),
    ensures
        run_start(l, p) == s,
    decreases p - s,
{
    if p > s {
        lemma_run_start(l, s, p - 1);
    }
}

proof fn lemma_run_end(l: Seq<char>, e: int, p: int)
    requires
        0 <= p < e <= l.len(),
        e == l.len() || is_space(l[e]),
        forall|j: int| p <= j < e ==> !is_space(#[trigger] l[j]),
    ensures
        run_end(l, p) == e,
    decreases e - p,
{
    if p + 1 < e {
        lemma_run_end(l, e, p + 1);
    } else {
        assert(run_end(l, e) == e);
    }
}

/// A cursor anywhere on a whitespace-delimited word, its two ends included,
/// finds exactly that word.
pub proof fn lemma_word_at_token(t: Seq<char>, line: int, s: int, e: int, col: int)
    requires
        0 <= line < line_count(t),
        0 <= s < e <= line_of(t, line).len(),
        s == 0 || is_space(line_of(t, line)[s - 1]),
        e == line_of(t, line).len() || is_space(line_of(t, line)[e]),
        forall|j: int| s <= j < e ==> !is_space(#[trigger] line_of(t, line)[j]),
        s <= col <= e,
    ensures
        word_at(t, line, col) == Some(line_of(t, line).subrange(s, e)),
{
    let l = line_of(t, line);
    let p = anchor(l, col)->0;
    assert(anchor(l, col) is Some);
    assert(s <= p < e);
    lemma_run_start(l, s, p);
    lemma_run_end(l, e, p);
}

/// The word of the line `l` that a cursor at `col` touches.
pub fn word_in_line_at(l: &[char], col: usize) -> (r: Option<Vec<char>>)
    ensures
        match r {
            Some(w) => word_in_line(l@, col as int) == Some(w@),
            None => word_in_line(l@, col as int) is None,
        },
{
    let n = l.len();
    let p: usize;
    if col < n && !whitespace(l[col]) {
        p = col;
    } else if 0 < col && col <= n && !whitespace(l[col - 1]) {
        p = col - 1;
    } else {
        return None;
    }
    let mut a: usize = p;
    while a > 0 && !whitespace(l[a - 1])
        invariant
            n == l@.len(),
            a <= p < n,
            run_start(l@, a as int) == run_start(l@, p as int),
        decreases a,
    {
        a = a - 1;
    }
    let mut b: usize = p;
    while b < n && !whitespace(l[b])
        invariant
            n == l@.len(),
            p <= b <= n,
            run_end(l@, b as int) == run_end(l@, p as int),
        decreases n - b,
    {
        b = b + 1;
    }
    let mut w: Vec<char> = Vec::new();
    let mut i: usize = a;
    while i < b
        invariant
            n == l@.len(),
            a <= i <= b <= n,
            w@ == l@.subrange(a as int, i as int),
        decreases b - i,
    {
        w.push(l[i]);
        i = i + 1;
        assert(w@ =~= l@.subrange(a as int, i as int));
    }
    Some(w)
}

/// The whitespace-delimited word at zero-based `line` and character
/// `character` of `content`, if the line exists and a word touches the
/// position.
pub fn get_word_at_position(content: &str, line: usize, character: usize) -> (r: Option<String>)
    ensures
        match r {
            Some(w) => word_at(content@, line as int, character as int) == Some(w@),
            None => word_at(content@, line as int, character as int) is None,
        },
{
    let cs = chars_of(content);
    let lines = split_lines(cs.as_slice());
    if line >= lines.len() {
        return None;
    }
    match word_in_line_at(lines[line].as_slice(), character) {
        Some(w) => Some(string_of(w.as_slice())),
        None => None,
    }
}


/// `s` without its leading whitespace.
pub open spec fn trim_start(s: Seq<char>) -> Seq<char>
    decreases s.len(),
{
    if s.len() > 0 && is_space(s[0]) {
        trim_start(s.drop_first())
    } else {
        s
    }
}

/// `s` without its trailing whitespace.
pub open spec fn trim_end(s: Seq<char>) -> Seq<char>
    decreases s.len(),
{
    if s.len() > 0 && is_space(s.last()) {
        trim_end(s.drop_last())
    } else {
        s
    }
}

/// `s` without leading and trailing whitespace.
pub open spec fn trim(s: Seq<char>) -> Seq<char> {
    trim_end(trim_start(s))
}

/// The characters of `s` without leading and trailing whitespace.
pub fn trim_chars(s: &[char]) -> (r: Vec<char>)
    ensures
        r@ == trim(s@),
{
    let n = s.len();
    let mut a: usize = 0;
    assert(s@.subrange(0, n as int) =~= s@);
    while a < n && whitespace(s[a])
        invariant
            n == s@.len(),
            a <= n,
            trim_start(s@.subrange(a as int, n as int)) == trim_start(s@),
        decreases n - a,
    {
        assert(s@.subrange(a as int, n as int).drop_first() =~= s@.subrange(a + 1, n as int));
        a = a + 1;
    }
    assert(trim_start(s@.subrange(a as int, n as int)) == s@.subrange(a as int, n as int));
    let mut b: usize = n;
    while b > a && whitespace(s[b - 1])
        invariant
            n == s@.len(),
            a <= b <= n,
            trim_end(s@.subrange(a as int, b as int)) == trim(s@),
            trim_start(s@) == s@.subrange(a as int, n as int),
        decreases b,
    {
        assert(s@.subrange(a as int, b as int).drop_last() =~= s@.subrange(a as int, b - 1));
        b = b - 1;
    }
    assert(trim_end(s@.subrange(a as int, b as int)) == s@.subrange(a as int, b as int));
    let mut out: Vec<char> = Vec::new();
    let mut i: usize = a;
    while i < b
        invariant
            n == s@.len(),
            a <= i <= b <= n,
            out@ == s@.subrange(a as int, i as int),
        decreases b - i,
    {
        out.push(s[i]);
        i = i + 1;
        assert(out@ =~= s@.subrange(a as int, i as int));
    }
    out
}


/// The characters of `s` from position `a` up to, not including, `b`.
pub fn sub_chars(s: &[char], a: usize, b: usize) -> (r: Vec<char>)
    requires
        a <= b <= s@.len(),
    ensures
        r@ == s@.subrange(a as int, b as int),
{
    let mut out: Vec<char> = Vec::new();
    let mut i: usize = a;
    while i < b
        invariant
            a <= i <= b <= s@.len(),
            out@ == s@.subrange(a as int, i as int),
        decreases b - i,
    {
        out.push(s[i]);
        i = i + 1;
        assert(out@ =~= s@.subrange(a as int, i as int));
    }
    out
}

} // verus!
