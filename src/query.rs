//! The requests: hover, completion and semantic tokens, answered from the
//! knowledge base and the current text of a document.

use crate::documents::DocumentStore;
use crate::knowledge::{assoc, entries_view, flatten, keyword_doc, CategoryView, Categories, Entries, KnowledgeBase};
use crate::text::{
    chars_of, get_word_at_position, has_prefix, line_count, line_of, split_lines, starts_with,
    push_char, sub_chars, trim, trim_chars, word_at,
};
use vstd::prelude::*;

verus! {

/// The documentation that hover shows for the word `w`: a category's
/// description first, else a keyword's documentation.
pub open spec fn hover_doc(cats: Categories, w: Seq<char>) -> Option<Seq<char>> {
    match assoc(cats, w) {
        Some(c) => Some(c.description),
        None => keyword_doc(cats, w),
    }
}

/// The hover answer at `line`, `column` of the text `t`.
pub open spec fn hover_answer(cats: Categories, t: Seq<char>, line: int, column: int) -> Option<Seq<char>> {
    match word_at(t, line, column) {
        Some(w) => hover_doc(cats, w),
        None => None,
    }
}

/// The documentation for the word under the cursor at `line`, `column` of
/// the document `uri`.
pub fn hover(kb: &KnowledgeBase, store: &DocumentStore, uri: &str, line: usize, column: usize) -> (r: Option<String>)
    ensures
        match store.content(uri@) {
            Some(t) => match r {
                Some(d) => hover_answer(kb@, t, line as int, column as int) == Some(d@),
                None => hover_answer(kb@, t, line as int, column as int) is None,
            },
            None => r is None,
        },
{
    let content = match store.get_document_content(uri) {
        Some(t) => t,
        None => return None,
    };
    let word = match get_word_at_position(content.as_str(), line, column) {
        Some(w) => w,
        None => return None,
    };
    match kb.lookup(word.as_str()) {
        Some(c) => Some(c.description.clone()),
        None => kb.lookup_keyword(word.as_str()),
    }
}

/// What a completion entry proposes.
#[derive(Clone, Copy, Debug, PartialEq, Eq, Structural)]
pub enum CompletionKind {
    Category,
    Keyword,
}

/// One completion proposal. A category's proposal inserts its name and a
/// `.`, and asks the editor to complete again right away.
pub struct CompletionEntry {
    pub label: String,
    pub documentation: String,
    pub insert_text: String,
    pub kind: CompletionKind,
    pub retrigger: bool,
}

pub struct EntryView {
    pub label: Seq<char>,
    pub documentation: Seq<char>,
    pub insert_text: Seq<char>,
    pub kind: CompletionKind,
    pub retrigger: bool,
}

impl View for CompletionEntry {
    type V = EntryView;

    open spec fn view(&self) -> EntryView {
        EntryView {
            label: self.label@,
            documentation: self.documentation@,
            insert_text: self.insert_text@,
            kind: self.kind,
            retrigger: self.retrigger,
        }
    }
}

pub open spec fn entries_of(v: Seq<CompletionEntry>) -> Seq<EntryView> {
    v.map_values(|e: CompletionEntry| e@)
}

pub open spec fn category_entry(name: Seq<char>, c: CategoryView) -> EntryView {
    EntryView {
        label: name,
        documentation: c.description,
        insert_text: name.push('.'),
        kind: CompletionKind::Category,
        retrigger: true,
    }
}

pub open spec fn keyword_entry(k: Seq<char>, d: Seq<char>) -> EntryView {
    EntryView { label: k, documentation: d, insert_text: k, kind: CompletionKind::Keyword, retrigger: false }
}

/// A proposal for each category whose name starts with `p`, in order.
pub open spec fn category_completions(cats: Categories, p: Seq<char>) -> Seq<EntryView>
    decreases cats.len(),
{
    if cats.len() == 0 {
        Seq::empty()
    } else {
        let r = category_completions(cats.drop_last(), p);
        if starts_with(cats.last().0, p) {
            r.push(category_entry(cats.last().0, cats.last().1))
        } else {
            r
        }
    }
}

/// A proposal for each keyword of `items` that starts with `p`, in order.
pub open spec fn keyword_completions(items: Entries, p: Seq<char>) -> Seq<EntryView>
    decreases items.len(),
{
    if items.len() == 0 {
        Seq::empty()
    } else {
        let r = keyword_completions(items.drop_last(), p);
        if starts_with(items.last().0, p) {
            r.push(keyword_entry(items.last().0, items.last().1))
        } else {
            r
        }
    }
}

/// Position of the first `.` of `p`.
pub open spec fn first_dot(p: Seq<char>) -> Option<int>
    decreases p.len(),
{
    if p.len() == 0 {
        None
    } else {
        match first_dot(p.drop_last()) {
            Some(i) => Some(i),
            None => if p.last() == '.' {
                Some(p.len() - 1)
            } else {
                None
            },
        }
    }
}

/// The proposals for the text `p` before the cursor: the categories that
/// start with it; then, if `p` holds a `.`, the keywords of the category
/// named before the first `.` that start with what follows it, trimmed;
/// else every keyword that starts with `p`.
pub open spec fn completion_answer(cats: Categories, p: Seq<char>) -> Seq<EntryView> {
    category_completions(cats, p) + match first_dot(p) {
        Some(i) => match assoc(cats, p.subrange(0, i)) {
            Some(c) => keyword_completions(c.items, trim(p.subrange(i + 1, p.len() as int))),
            None => Seq::empty(),
        },
        None => keyword_completions(flatten(cats), p),
    }
}

/// The proposals at `line`, `column` of the text `t`: none where the line
/// does not exist or is shorter than `column`.
pub open spec fn completion_at(cats: Categories, t: Seq<char>, line: int, column: int) -> Seq<EntryView> {
    if 0 <= line < line_count(t) && 0 <= column <= line_of(t, line).len() {
        completion_answer(cats, line_of(t, line).subrange(0, column))
    } else {
        Seq::empty()
    }
}


fn with_dot(s: &String) -> (r: String)
    ensures
        r@ == s@.push('.'),
{
    let mut r = s.clone();
    push_char(&mut r, '.');
    r
}

/// Appends a proposal for each category whose name starts with `p`.
fn add_category_completions(kb: &KnowledgeBase, p: &[char], out: &mut Vec<CompletionEntry>)
    ensures
        entries_of(final(out)@) == entries_of(old(out)@) + category_completions(kb@, p@),
{
    let ghost s = kb@;
    let ghost base = entries_of(out@);
    let mut c: usize = 0;
    while c < kb.categories.len()
        invariant
            s == kb@,
            c <= s.len(),
            entries_of(out@) == base + category_completions(s.subrange(0, c as int), p@),
        decreases s.len() - c,
    {
        assert(s.subrange(0, c + 1).drop_last() =~= s.subrange(0, c as int));
        let name = &kb.categories[c].0;
        let data = &kb.categories[c].1;
        let cs = chars_of(name.as_str());
        let ghost before = out@;
        assert(s[c as int] == (name@, data@));
        if has_prefix(cs.as_slice(), p) {
            let e = CompletionEntry {
                label: name.clone(),
                documentation: data.description.clone(),
                insert_text: with_dot(name),
                kind: CompletionKind::Category,
                retrigger: true,
            };
            out.push(e);
            assert(e@ == category_entry(name@, data@));
            assert(entries_of(out@) =~= entries_of(before).push(e@));
        }
        c = c + 1;
        assert(entries_of(out@) =~= base + category_completions(s.subrange(0, c as int), p@));
    }
    assert(s.subrange(0, c as int) =~= s);
}

/// Appends a proposal for each keyword of `items` that starts with `p`.
fn add_keyword_completions(items: &Vec<(String, String)>, p: &[char], out: &mut Vec<CompletionEntry>)
    ensures
        entries_of(final(out)@) == entries_of(old(out)@) + keyword_completions(
            entries_view(items@),
            p@,
        ),
{
    let ghost s = entries_view(items@);
    let ghost base = entries_of(out@);
    let mut j: usize = 0;
    while j < items.len()
        invariant
            s == entries_view(items@),
            j <= s.len(),
            entries_of(out@) == base + keyword_completions(s.subrange(0, j as int), p@),
        decreases s.len() - j,
    {
        assert(s.subrange(0, j + 1).drop_last() =~= s.subrange(0, j as int));
        let cs = chars_of(items[j].0.as_str());
        let ghost before = out@;
        assert(s[j as int] == (items@[j as int].0@, items@[j as int].1@));
        if has_prefix(cs.as_slice(), p) {
            let e = CompletionEntry {
                label: items[j].0.clone(),
                documentation: items[j].1.clone(),
                insert_text: items[j].0.clone(),
                kind: CompletionKind::Keyword,
                retrigger: false,
            };
            out.push(e);
            assert(e@ == keyword_entry(s[j as int].0, s[j as int].1));
            assert(entries_of(out@) =~= entries_of(before).push(e@));
        }
        j = j + 1;
        assert(entries_of(out@) =~= base + keyword_completions(s.subrange(0, j as int), p@));
    }
    assert(s.subrange(0, j as int) =~= s);
}

fn find_dot(p: &[char]) -> (r: Option<usize>)
    ensures
        match r {
            Some(i) => first_dot(p@) == Some(i as int),
            None => first_dot(p@) is None,
        },
{
    let mut i: usize = 0;
    while i < p.len()
        invariant
            i <= p@.len(),
            first_dot(p@.subrange(0, i as int)) is None,
        decreases p@.len() - i,
    {
        assert(p@.subrange(0, i + 1).drop_last() =~= p@.subrange(0, i as int));
        if p[i] == '.' {
            proof {
                lemma_first_dot_prefix(p@, i + 1);
            }
            return Some(i);
        }
        i = i + 1;
    }
    assert(p@.subrange(0, i as int) =~= p@);
    None
}

proof fn lemma_first_dot_bounds(p: Seq<char>)
    ensures
        first_dot(p) matches Some(i) ==> 0 <= i < p.len(),
    decreases p.len(),
{
    if p.len() > 0 {
        lemma_first_dot_bounds(p.drop_last());
    }
}

proof fn lemma_first_dot_prefix(p: Seq<char>, i: int)
    requires
        0 <= i <= p.len(),
        first_dot(p.subrange(0, i)) is Some,
    ensures
        first_dot(p) == first_dot(p.subrange(0, i)),
    decreases p.len(),
{
    if i < p.len() {
        assert(p.drop_last().subrange(0, i) =~= p.subrange(0, i));
        lemma_first_dot_prefix(p.drop_last(), i);
    } else {
        assert(p.subrange(0, i) =~= p);
    }
}

/// The proposals for the text `prefix` before the cursor.
pub fn complete_prefix(kb: &KnowledgeBase, prefix: &str) -> (r: Vec<CompletionEntry>)
    ensures
        entries_of(r@) == completion_answer(kb@, prefix@),
{
    let p = chars_of(prefix);
    complete_chars(kb, p.as_slice())
}

fn complete_chars(kb: &KnowledgeBase, p: &[char]) -> (r: Vec<CompletionEntry>)
    ensures
        entries_of(r@) == completion_answer(kb@, p@),
{
    let mut out: Vec<CompletionEntry> = Vec::new();
    assert(entries_of(out@) =~= Seq::<EntryView>::empty());
    add_category_completions(kb, p, &mut out);
    let ghost cat_part = entries_of(out@);
    match find_dot(p) {
        Some(i) => {
            proof {
                lemma_first_dot_bounds(p@);
            }
            let head = sub_chars(p, 0, i);
            let n = p.len();
            assert(i < n);
            let tail = sub_chars(p, i + 1, n);
            let item_prefix = trim_chars(tail.as_slice());
            match kb.find_category(head.as_slice()) {
                Some(m) => {
                    add_keyword_completions(&kb.categories[m].1.items, item_prefix.as_slice(), &mut out);
                },
                None => {
                    assert(entries_of(out@) =~= cat_part + Seq::<EntryView>::empty());
                },
            }
        },
        None => {
            let all = kb.get_all_keywords();
            add_keyword_completions(&all, p, &mut out);
        },
    }
    out
}

/// The proposals at `line`, `column` of the document `uri`: none for an
/// unknown document, a missing line, or a column past the end of the line.
pub fn completion(kb: &KnowledgeBase, store: &DocumentStore, uri: &str, line: usize, column: usize) -> (r: Vec<CompletionEntry>)
    ensures
        match store.content(uri@) {
            Some(t) => entries_of(r@) == completion_at(kb@, t, line as int, column as int),
            None => r@.len() == 0,
        },
{
    let content = match store.get_document_content(uri) {
        Some(t) => t,
        None => return Vec::new(),
    };
    let cs = chars_of(content.as_str());
    let lines = split_lines(cs.as_slice());
    if line >= lines.len() || column > lines[line].len() {
        let r: Vec<CompletionEntry> = Vec::new();
        assert(entries_of(r@) =~= Seq::<EntryView>::empty());
        return r;
    }
    let prefix = sub_chars(lines[line].as_slice(), 0, column);
    complete_chars(kb, prefix.as_slice())
}


/// The part of the prefix `p` that keyword proposals are held to.
pub open spec fn item_prefix(p: Seq<char>) -> Seq<char> {
    match first_dot(p) {
        Some(i) => trim(p.subrange(i + 1, p.len() as int)),
        None => p,
    }
}

proof fn lemma_category_completions(cats: Categories, p: Seq<char>)
    ensures
        forall|k: int|
            0 <= k < category_completions(cats, p).len() ==> {
                let e = #[trigger] category_completions(cats, p)[k];
                e.kind == CompletionKind::Category && starts_with(e.label, p)
            },
    decreases cats.len(),
{
    if cats.len() > 0 {
        lemma_category_completions(cats.drop_last(), p);
    }
}

proof fn lemma_keyword_completions(items: Entries, p: Seq<char>)
    ensures
        forall|k: int|
            0 <= k < keyword_completions(items, p).len() ==> {
                let e = #[trigger] keyword_completions(items, p)[k];
                e.kind == CompletionKind::Keyword && starts_with(e.label, p)
            },
    decreases items.len(),
{
    if items.len() > 0 {
        lemma_keyword_completions(items.drop_last(), p);
    }
}

/// Every proposal's label starts with the part of the prefix that chose it:
/// the whole prefix for a category; for a keyword, the trimmed text after
/// the first `.` where there is one, else the whole prefix.
pub proof fn lemma_completion_labels(cats: Categories, p: Seq<char>)
    ensures
        forall|k: int|
            0 <= k < completion_answer(cats, p).len() ==> {
                let e = #[trigger] completion_answer(cats, p)[k];
                &&& e.kind == CompletionKind::Category ==> starts_with(e.label, p)
                &&& e.kind == CompletionKind::Keyword ==> starts_with(e.label, item_prefix(p))
            },
{
    let a = category_completions(cats, p);
    lemma_category_completions(cats, p);
    let b = match first_dot(p) {
        Some(i) => match assoc(cats, p.subrange(0, i)) {
            Some(c) => keyword_completions(c.items, trim(p.subrange(i + 1, p.len() as int))),
            None => Seq::empty(),
        },
        None => keyword_completions(flatten(cats), p),
    };
    match first_dot(p) {
        Some(i) => match assoc(cats, p.subrange(0, i)) {
            Some(c) => lemma_keyword_completions(c.items, trim(p.subrange(i + 1, p.len() as int))),
            None => {},
        },
        None => lemma_keyword_completions(flatten(cats), p),
    }
    assert forall|k: int| 0 <= k < completion_answer(cats, p).len() implies {
        let e = #[trigger] completion_answer(cats, p)[k];
        &&& e.kind == CompletionKind::Category ==> starts_with(e.label, p)
        &&& e.kind == CompletionKind::Keyword ==> starts_with(e.label, item_prefix(p))
    } by {
        assert(completion_answer(cats, p) == a + b);
        if k < a.len() {
            assert(completion_answer(cats, p)[k] == a[k]);
        } else {
            assert(completion_answer(cats, p)[k] == b[k - a.len()]);
        }
    }
}

} // verus!
