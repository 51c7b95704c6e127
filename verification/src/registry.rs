use vstd::prelude::*;

use crate::table::{kv_views, map_of, unique_keys, LangSnippetTable, StrMap};

verus! {

/// The open documents of a session: document identifiers mapped to the
/// language identifier each was opened with.
pub struct DocumentRegistry {
    docs: StrMap,
}

impl View for DocumentRegistry {
    type V = Map<Seq<char>, Seq<char>>;

    closed spec fn view(&self) -> Map<Seq<char>, Seq<char>> {
        self.docs@
    }
}

impl DocumentRegistry {
    /// The registry's private map is well formed.
    pub closed spec fn wf(self) -> bool {
        self.docs.wf()
    }

    /// A registry with no open documents.
    pub fn new() -> (r: DocumentRegistry)
        ensures
            r.wf(),
            r@ == Map::<Seq<char>, Seq<char>>::empty(),
    {
        DocumentRegistry { docs: StrMap::new() }
    }

    /// Records the language a document was opened with; a document already
    /// open has its language overwritten.
    pub fn on_open(&mut self, doc: String, lang: String)
        requires
            old(self).wf(),
        ensures
            final(self).wf(),
            final(self)@ == old(self)@.insert(doc@, lang@),
    {
        self.docs.insert(doc, lang);
    }

    /// Forgets a document; nothing changes where the document is not open.
    pub fn on_close(&mut self, doc: &String)
        requires
            old(self).wf(),
        ensures
            final(self).wf(),
            final(self)@ == old(self)@.remove(doc@),
    {
        self.docs.remove(doc);
    }

    /// The completion candidates for a document: the (trigger, body) pairs of
    /// the resolved table's snippet set for the document's language, and an
    /// empty list where the document is not open or its language has no
    /// snippets — never an error.
    pub fn snippets_for(&self, doc: &String, table: &LangSnippetTable) -> (r: Vec<
        (String, String),
    >)
        requires
            self.wf(),
            table.wf(),
        ensures
            unique_keys(kv_views(r@)),
            self@.contains_key(doc@) && table@.contains_key(self@[doc@]) ==> map_of(kv_views(r@))
                == table@[self@[doc@]],
            !(self@.contains_key(doc@) && table@.contains_key(self@[doc@])) ==> r@.len() == 0,
    {
        match self.docs.get(doc) {
            Some(lang) => match table.get(lang) {
                Some(set) => set.to_pairs(),
                None => Vec::new(),
            },
            None => Vec::new(),
        }
    }
}

} // verus!
