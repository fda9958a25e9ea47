//! The dictionary of known identifiers: categories, each with a description
//! and a mapping from keyword to documentation. Lookups are exact matches;
//! where a name occurs twice, the first one declared wins.

use crate::text::{chars_of, same_chars};
use vstd::prelude::*;

verus! {

/// Key/value pairs of strings, as character sequences.
pub type Entries = Seq<(Seq<char>, Seq<char>)>;

/// The value of the first entry of `s` whose key is `k`.
pub open spec fn assoc<V>(s: Seq<(Seq<char>, V)>, k: Seq<char>) -> Option<V>
    decreases s.len(),
{
    if s.len() == 0 {
        None
    } else {
        match assoc(s.drop_last(), k) {
            Some(v) => Some(v),
            None => if s.last().0 == k {
                Some(s.last().1)
            } else {
                None
            },
        }
    }
}

pub open spec fn entries_view(v: Seq<(String, String)>) -> Entries {
    v.map_values(|p: (String, String)| (p.0@, p.1@))
}

/// A category of the dictionary: a description and its keywords, each with
/// its documentation.
pub struct CategoryData {
    pub description: String,
    pub items: Vec<(String, String)>,
}

pub struct CategoryView {
    pub description: Seq<char>,
    pub items: Entries,
}

impl View for CategoryData {
    type V = CategoryView;

    open spec fn view(&self) -> CategoryView {
        CategoryView { description: self.description@, items: entries_view(self.items@) }
    }
}

/// The categories, by name, in the order they were declared.
pub struct KnowledgeBase {
    pub categories: Vec<(String, CategoryData)>,
}

pub type Categories = Seq<(Seq<char>, CategoryView)>;

impl View for KnowledgeBase {
    type V = Categories;

    open spec fn view(&self) -> Categories {
        self.categories@.map_values(|p: (String, CategoryData)| (p.0@, p.1@))
    }
}

/// The documentation of keyword `k` in the first category that has it.
pub open spec fn keyword_doc(cats: Categories, k: Seq<char>) -> Option<Seq<char>>
    decreases cats.len(),
{
    if cats.len() == 0 {
        None
    } else {
        match keyword_doc(cats.drop_last(), k) {
            Some(d) => Some(d),
            None => assoc(cats.last().1.items, k),
        }
    }
}

/// `acc` followed by the entries of `items` whose key is not yet present.
pub open spec fn add_new(acc: Entries, items: Entries) -> Entries
    decreases items.len(),
{
    if items.len() == 0 {
        acc
    } else {
        let a = add_new(acc, items.drop_last());
        if assoc(a, items.last().0) is Some {
            a
        } else {
            a.push(items.last())
        }
    }
}

/// All keywords of all categories, each once, with the documentation of the
/// first category that has it.
pub open spec fn flatten(cats: Categories) -> Entries
    decreases cats.len(),
{
    if cats.len() == 0 {
        Seq::empty()
    } else {
        add_new(flatten(cats.drop_last()), cats.last().1.items)
    }
}

pub(crate) proof fn lemma_assoc_push<V>(s: Seq<(Seq<char>, V)>, x: (Seq<char>, V), k: Seq<char>)
    ensures
        assoc(s.push(x), k) == match assoc(s, k) {
            Some(v) => Some(v),
            None => if x.0 == k {
                Some(x.1)
            } else {
                None
            },
        },
{
    assert(s.push(x).drop_last() =~= s);
}

proof fn lemma_assoc_add_new(acc: Entries, items: Entries, k: Seq<char>)
    ensures
        assoc(add_new(acc, items), k) == match assoc(acc, k) {
            Some(v) => Some(v),
            None => assoc(items, k),
        },
    decreases items.len(),
{
    if items.len() > 0 {
        let a = add_new(acc, items.drop_last());
        lemma_assoc_add_new(acc, items.drop_last(), k);
        lemma_assoc_add_new(acc, items.drop_last(), items.last().0);
        if !(assoc(a, items.last().0) is Some) {
            lemma_assoc_push(a, items.last(), k);
        }
    }
}

proof fn lemma_assoc_flatten(cats: Categories, k: Seq<char>)
    ensures
        assoc(flatten(cats), k) == keyword_doc(cats, k),
    decreases cats.len(),
{
    if cats.len() > 0 {
        lemma_assoc_flatten(cats.drop_last(), k);
        lemma_assoc_add_new(flatten(cats.drop_last()), cats.last().1.items, k);
    }
}

proof fn lemma_assoc_found<V>(s: Seq<(Seq<char>, V)>, m: int)
    requires
        0 <= m < s.len(),
    ensures
        assoc(s, s[m].0) is Some,
    decreases s.len(),
{
    if m < s.len() - 1 {
        lemma_assoc_found(s.drop_last(), m);
    }
}

proof fn lemma_assoc_member<V>(s: Seq<(Seq<char>, V)>, k: Seq<char>)
    requires
        assoc(s, k) is Some,
    ensures
        exists|m: int| 0 <= m < s.len() && #[trigger] s[m] == (k, assoc(s, k)->0),
    decreases s.len(),
{
    if assoc(s.drop_last(), k) is Some {
        lemma_assoc_member(s.drop_last(), k);
        let m = choose|m: int|
            0 <= m < s.drop_last().len() && #[trigger] s.drop_last()[m] == (
                k,
                assoc(s.drop_last(), k)->0,
            );
        assert(s[m] == (k, assoc(s, k)->0));
    } else {
        assert(s[s.len() - 1] == (k, assoc(s, k)->0));
    }
}

proof fn lemma_keyword_doc_found(cats: Categories, c: int, j: int)
    requires
        0 <= c < cats.len(),
        0 <= j < cats[c].1.items.len(),
    ensures
        keyword_doc(cats, cats[c].1.items[j].0) is Some,
        exists|c2: int, j2: int|
            0 <= c2 < cats.len() && 0 <= j2 < cats[c2].1.items.len() && #[trigger] cats[c2].1.items[j2]
                == (cats[c].1.items[j].0, keyword_doc(cats, cats[c].1.items[j].0)->0),
    decreases cats.len(),
{
    let k = cats[c].1.items[j].0;
    let init = cats.drop_last();
    if keyword_doc(init, k) is Some {
        if c < cats.len() - 1 {
            lemma_keyword_doc_found(init, c, j);
        } else {
            lemma_keyword_doc_member(init, k);
        }
        let (c2, j2) = choose|c2: int, j2: int|
            0 <= c2 < init.len() && 0 <= j2 < init[c2].1.items.len() && #[trigger] init[c2].1.items[j2]
                == (k, keyword_doc(init, k)->0);
        assert(cats[c2].1.items[j2] == (k, keyword_doc(cats, k)->0));
    } else {
        if c < cats.len() - 1 {
            lemma_keyword_doc_found(init, c, j);
        }
        lemma_assoc_found(cats.last().1.items, j);
        lemma_assoc_member(cats.last().1.items, k);
        let m = choose|m: int|
            0 <= m < cats.last().1.items.len() && #[trigger] cats.last().1.items[m] == (
                k,
                assoc(cats.last().1.items, k)->0,
            );
        assert(cats[cats.len() - 1].1.items[m] == (k, keyword_doc(cats, k)->0));
    }
}

proof fn lemma_keyword_doc_member(cats: Categories, k: Seq<char>)
    requires
        keyword_doc(cats, k) is Some,
    ensures
        exists|c2: int, j2: int|
            0 <= c2 < cats.len() && 0 <= j2 < cats[c2].1.items.len() && #[trigger] cats[c2].1.items[j2]
                == (k, keyword_doc(cats, k)->0),
    decreases cats.len(),
{
    let init = cats.drop_last();
    if keyword_doc(init, k) is Some {
        lemma_keyword_doc_member(init, k);
        let (c2, j2) = choose|c2: int, j2: int|
            0 <= c2 < init.len() && 0 <= j2 < init[c2].1.items.len() && #[trigger] init[c2].1.items[j2]
                == (k, keyword_doc(init, k)->0);
        assert(cats[c2].1.items[j2] == (k, keyword_doc(cats, k)->0));
    } else {
        lemma_assoc_member(cats.last().1.items, k);
        let m = choose|m: int|
            0 <= m < cats.last().1.items.len() && #[trigger] cats.last().1.items[m] == (
                k,
                assoc(cats.last().1.items, k)->0,
            );
        assert(cats[cats.len() - 1].1.items[m] == (k, keyword_doc(cats, k)->0));
    }
}

/// Every keyword of every category is in the flattened keyword mapping, with
/// the documentation that some category gives it (the first that has it).
pub proof fn lemma_all_keywords_cover(cats: Categories, c: int, j: int)
    requires
        0 <= c < cats.len(),
        0 <= j < cats[c].1.items.len(),
    ensures
        assoc(flatten(cats), cats[c].1.items[j].0) == keyword_doc(cats, cats[c].1.items[j].0),
        keyword_doc(cats, cats[c].1.items[j].0) is Some,
        exists|c2: int, j2: int|
            0 <= c2 < cats.len() && 0 <= j2 < cats[c2].1.items.len() && #[trigger] cats[c2].1.items[j2]
                == (cats[c].1.items[j].0, keyword_doc(cats, cats[c].1.items[j].0)->0),
{
    lemma_assoc_flatten(cats, cats[c].1.items[j].0);
    lemma_keyword_doc_found(cats, c, j);
}


proof fn lemma_assoc_prefix<V>(s: Seq<(Seq<char>, V)>, i: int, k: Seq<char>)
    requires
        0 <= i <= s.len(),
        assoc(s.subrange(0, i), k) is Some,
    ensures
        assoc(s, k) == assoc(s.subrange(0, i), k),
    decreases s.len(),
{
    if i < s.len() {
        assert(s.drop_last().subrange(0, i) =~= s.subrange(0, i));
        lemma_assoc_prefix(s.drop_last(), i, k);
    } else {
        assert(s.subrange(0, i) =~= s);
    }
}

proof fn lemma_assoc_step<V>(s: Seq<(Seq<char>, V)>, i: int, k: Seq<char>)
    requires
        0 <= i < s.len(),
    ensures
        assoc(s.subrange(0, i + 1), k) == match assoc(s.subrange(0, i), k) {
            Some(v) => Some(v),
            None => if s[i].0 == k {
                Some(s[i].1)
            } else {
                None
            },
        },
{
    assert(s.subrange(0, i + 1) =~= s.subrange(0, i).push(s[i]));
    lemma_assoc_push(s.subrange(0, i), s[i], k);
}

/// Position of the first entry of `v` whose key is `k`.
pub(crate) fn find_key(v: &Vec<(String, String)>, k: &[char]) -> (r: Option<usize>)
    ensures
        match r {
            Some(m) => m < v@.len() && entries_view(v@)[m as int].0 == k@ && assoc(
                entries_view(v@),
                k@,
            ) == Some(entries_view(v@)[m as int].1) && assoc(
                entries_view(v@).subrange(0, m as int),
                k@,
            ) is None,
            None => assoc(entries_view(v@), k@) is None,
        },
{
    let ghost s = entries_view(v@);
    let mut i: usize = 0;
    while i < v.len()
        invariant
            s == entries_view(v@),
            i <= v@.len(),
            assoc(s.subrange(0, i as int), k@) is None,
        decreases v@.len() - i,
    {
        proof {
            lemma_assoc_step(s, i as int, k@);
        }
        let key = chars_of(v[i].0.as_str());
        if same_chars(key.as_slice(), k) {
            proof {
                lemma_assoc_prefix(s, i + 1, k@);
            }
            return Some(i);
        }
        i = i + 1;
    }
    assert(s.subrange(0, i as int) =~= s);
    None
}

impl KnowledgeBase {
    /// A knowledge base over `categories`, in the order given.
    pub fn new(categories: Vec<(String, CategoryData)>) -> (r: KnowledgeBase)
        ensures
            r.categories@ == categories@,
    {
        KnowledgeBase { categories }
    }

    /// Position of the first category named `name`.
    pub(crate) fn find_category(&self, name: &[char]) -> (r: Option<usize>)
        ensures
            match r {
                Some(m) => m < self@.len() && self@[m as int].0 == name@ && assoc(self@, name@)
                    == Some(self@[m as int].1),
                None => assoc(self@, name@) is None,
            },
    {
        let ghost s = self@;
        let mut i: usize = 0;
        while i < self.categories.len()
            invariant
                s == self@,
                i <= s.len(),
                assoc(s.subrange(0, i as int), name@) is None,
            decreases s.len() - i,
        {
            proof {
                lemma_assoc_step(s, i as int, name@);
            }
            let key = chars_of(self.categories[i].0.as_str());
            if same_chars(key.as_slice(), name) {
                proof {
                    lemma_assoc_prefix(s, i + 1, name@);
                }
                return Some(i);
            }
            i = i + 1;
        }
        assert(s.subrange(0, i as int) =~= s);
        None
    }

    /// The category named `name`.
    pub fn lookup(&self, name: &str) -> (r: Option<&CategoryData>)
        ensures
            match r {
                Some(c) => assoc(self@, name@) == Some(c@),
                None => assoc(self@, name@) is None,
            },
    {
        let cs = chars_of(name);
        match self.find_category(cs.as_slice()) {
            Some(m) => Some(&self.categories[m].1),
            None => None,
        }
    }

    /// The documentation of keyword `word`, from the first category that
    /// has it.
    pub fn lookup_keyword(&self, word: &str) -> (r: Option<String>)
        ensures
            match r {
                Some(d) => keyword_doc(self@, word@) == Some(d@),
                None => keyword_doc(self@, word@) is None,
            },
    {
        let ghost s = self@;
        let w = chars_of(word);
        let mut c: usize = 0;
        while c < self.categories.len()
            invariant
                s == self@,
                w@ == word@,
                c <= s.len(),
                keyword_doc(s.subrange(0, c as int), word@) is None,
            decreases s.len() - c,
        {
            assert(s.subrange(0, c + 1).drop_last() =~= s.subrange(0, c as int));
            let items = &self.categories[c].1.items;
            match find_key(items, w.as_slice()) {
                Some(m) => {
                    proof {
                        lemma_keyword_doc_prefix(s, c + 1, word@);
                    }
                    return Some(items[m].1.clone());
                },
                None => {},
            }
            c = c + 1;
        }
        assert(s.subrange(0, c as int) =~= s);
        None
    }

    /// Every keyword of every category once, with the documentation of the
    /// first category that has it.
    pub fn get_all_keywords(&self) -> (r: Vec<(String, String)>)
        ensures
            entries_view(r@) == flatten(self@),
    {
        let ghost s = self@;
        let mut out: Vec<(String, String)> = Vec::new();
        let mut c: usize = 0;
        while c < self.categories.len()
            invariant
                s == self@,
                c <= s.len(),
                entries_view(out@) == flatten(s.subrange(0, c as int)),
            decreases s.len() - c,
        {
            let items = &self.categories[c].1.items;
            let ghost acc = flatten(s.subrange(0, c as int));
            let ghost its = s[c as int].1.items;
            assert(its == entries_view(items@));
            let mut j: usize = 0;
            while j < items.len()
                invariant
                    its == entries_view(items@),
                    j <= items@.len(),
                    entries_view(out@) == add_new(acc, its.subrange(0, j as int)),
                decreases items@.len() - j,
            {
                assert(its.subrange(0, j + 1).drop_last() =~= its.subrange(0, j as int));
                let key = chars_of(items[j].0.as_str());
                match find_key(&out, key.as_slice()) {
                    Some(_) => {},
                    None => {
                        out.push((items[j].0.clone(), items[j].1.clone()));
                    },
                }
                j = j + 1;
                assert(entries_view(out@) =~= add_new(acc, its.subrange(0, j as int)));
            }
            assert(its.subrange(0, j as int) =~= its);
            assert(s.subrange(0, c + 1).drop_last() =~= s.subrange(0, c as int));
            c = c + 1;
        }
        assert(s.subrange(0, c as int) =~= s);
        out
    }
}

proof fn lemma_keyword_doc_prefix(cats: Categories, i: int, k: Seq<char>)
    requires
        0 <= i <= cats.len(),
        keyword_doc(cats.subrange(0, i), k) is Some,
    ensures
        keyword_doc(cats, k) == keyword_doc(cats.subrange(0, i), k),
    decreases cats.len(),
{
    if i < cats.len() {
        assert(cats.drop_last().subrange(0, i) =~= cats.subrange(0, i));
        lemma_keyword_doc_prefix(cats.drop_last(), i, k);
    } else {
        assert(cats.subrange(0, i) =~= cats);
    }
}

} // verus!
