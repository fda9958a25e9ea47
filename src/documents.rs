//! The store of open documents: the full current text of each, by document
//! identifier, replaced whole on every update.

use crate::knowledge::{assoc, entries_view, find_key, lemma_assoc_push};
use crate::text::chars_of;
use vstd::prelude::*;

verus! {

/// The text of each open document, by identifier.
pub struct DocumentStore {
    docs: Vec<(String, String)>,
}

/// `new` holds `text` for `uri` and otherwise what `old` holds.
pub open spec fn stores_text(old: DocumentStore, new: DocumentStore, uri: Seq<char>, text: Seq<char>) -> bool {
    forall|u: Seq<char>|
        #[trigger] new.content(u) == if u == uri {
            Some(text)
        } else {
            old.content(u)
        }
}

/// `new` holds what `old` holds.
pub open spec fn same_texts(old: DocumentStore, new: DocumentStore) -> bool {
    forall|u: Seq<char>| #[trigger] new.content(u) == old.content(u)
}

proof fn lemma_assoc_update(s: Seq<(Seq<char>, Seq<char>)>, m: int, x: (Seq<char>, Seq<char>), u: Seq<char>)
    requires
        0 <= m < s.len(),
        s[m].0 == x.0,
        assoc(s.subrange(0, m), x.0) is None,
    ensures
        assoc(s.update(m, x), u) == if u == x.0 {
            Some(x.1)
        } else {
            assoc(s, u)
        },
    decreases s.len(),
{
    let t = s.update(m, x);
    if m == s.len() - 1 {
        assert(s.drop_last() =~= s.subrange(0, m));
        assert(t =~= s.drop_last().push(x));
        assert(s =~= s.drop_last().push(s[m]));
        lemma_assoc_push(s.drop_last(), x, u);
        lemma_assoc_push(s.drop_last(), s[m], u);
    } else {
        assert(s.drop_last().subrange(0, m) =~= s.subrange(0, m));
        assert(t =~= s.drop_last().update(m, x).push(s.last()));
        assert(s =~= s.drop_last().push(s.last()));
        lemma_assoc_update(s.drop_last(), m, x, u);
        lemma_assoc_push(s.drop_last().update(m, x), s.last(), u);
        lemma_assoc_push(s.drop_last(), s.last(), u);
    }
}

impl DocumentStore {
    /// The text held for `uri`.
    pub closed spec fn content(self, uri: Seq<char>) -> Option<Seq<char>> {
        assoc(entries_view(self.docs@), uri)
    }

    /// A store with no document.
    pub fn new() -> (r: DocumentStore)
        ensures
            forall|u: Seq<char>| #[trigger] r.content(u) is None,
    {
        DocumentStore { docs: Vec::new() }
    }

    /// Holds `text` for `uri`, whether or not it was open before.
    pub fn did_open(&mut self, uri: String, text: String)
        ensures
            stores_text(*old(self), *final(self), uri@, text@),
    {
        let ghost s = entries_view(self.docs@);
        let key = chars_of(uri.as_str());
        let ghost x = (uri@, text@);
        match find_key(&self.docs, key.as_slice()) {
            Some(m) => {
                self.docs.set(m, (uri, text));
                assert(entries_view(self.docs@) =~= s.update(m as int, x));
                assert forall|u: Seq<char>| #[trigger] self.content(u) == if u == x.0 {
                    Some(x.1)
                } else {
                    assoc(s, u)
                } by {
                    lemma_assoc_update(s, m as int, x, u);
                }
            },
            None => {
                self.docs.push((uri, text));
                assert(entries_view(self.docs@) =~= s.push(x));
                assert forall|u: Seq<char>| #[trigger] self.content(u) == if u == x.0 {
                    Some(x.1)
                } else {
                    assoc(s, u)
                } by {
                    lemma_assoc_push(s, x, u);
                }
            },
        }
    }

    /// Replaces the text of `uri` with the last of `changes`, each of which
    /// is a full text; no change leaves the store as it is.
    pub fn did_change(&mut self, uri: String, changes: Vec<String>)
        ensures
            changes@.len() > 0 ==> stores_text(*old(self), *final(self), uri@, changes@.last()@),
            changes@.len() == 0 ==> same_texts(*old(self), *final(self)),
    {
        let n = changes.len();
        if n > 0 {
            let text = changes[n - 1].clone();
            self.did_open(uri, text);
        }
    }

    /// The text held for `uri`, if it was ever opened.
    pub fn get_document_content(&self, uri: &str) -> (r: Option<String>)
        ensures
            match r {
                Some(t) => self.content(uri@) == Some(t@),
                None => self.content(uri@) is None,
            },
    {
        let key = chars_of(uri);
        match find_key(&self.docs, key.as_slice()) {
            Some(m) => Some(self.docs[m].1.clone()),
            None => None,
        }
    }
}

/// Opening a document and then reading it gives the text opened; a later
/// change and a read give the changed text, not a merge of the two.
pub proof fn lemma_open_change_round_trip(
    s0: DocumentStore,
    s1: DocumentStore,
    s2: DocumentStore,
    uri: Seq<char>,
    t: Seq<char>,
    t2: Seq<char>,
)
    requires
        stores_text(s0, s1, uri, t),
        stores_text(s1, s2, uri, t2),
    ensures
        s1.content(uri) == Some(t),
        s2.content(uri) == Some(t2),
        forall|u: Seq<char>| u != uri ==> #[trigger] s2.content(u) == s0.content(u),
{
    assert(s1.content(uri) == Some(t));
    assert(s2.content(uri) == Some(t2));
}

} // verus!
