//! The document store: parsed documents registered under caller-chosen,
//! unique names. Registration is append-only and all-or-nothing.

use vstd::prelude::*;
use crate::construct::{forest_distinct, id_of, ids_distinct, roots_mirror};
use crate::markup::{parse_markup, parsed_markup};
use crate::xml::{Document, NodeAsync};

verus! {

/// Why a registration could not parse its markup.
#[derive(Debug)]
pub struct SourceReadFailureContents {
    pub entry_index: String,
    pub failure_message: String,
}

#[derive(Debug)]
pub enum Error {
    /// The markup is not well formed.
    SourceReadFailure(SourceReadFailureContents),
    /// The name is already registered.
    AlreadyInStore(String),
}

/// One registered document: its name, its source text, the arena of its
/// nodes and its root nodes in source order.
#[derive(Debug)]
pub struct StoreEntry {
    pub index: String,
    pub nodes: Vec<NodeAsync>,
    pub source: String,
    pub document: Document,
}

impl StoreEntry {
    pub open spec fn wf(&self) -> bool {
        &&& self.document.wf()
        &&& forall|j: int| 0 <= j < self.nodes@.len() ==> self.document.valid(#[trigger] self.nodes@[j])
    }

    /// The entry holds `source` parsed into `raws`, under `index`.
    pub open spec fn holds(&self, index: Seq<char>, source: Seq<char>, raws: Seq<crate::markup::RawNode>) -> bool {
        &&& self.wf()
        &&& self.index@ == index
        &&& self.source@ == source
        &&& roots_mirror(self.document@, self.nodes@, raws, raws.len() as int)
        &&& forest_distinct(raws, raws.len() as int) ==> ids_distinct(self.document@)
    }
}

/// Registered documents, in order of registration.
#[derive(Debug)]
pub struct XmlStore {
    pub indices: Vec<StoreEntry>,
}

/// What registering `source` under `index` does to store `pre`, giving
/// `post` and the outcome `r`.
pub open spec fn registration(
    pre: XmlStore,
    post: XmlStore,
    index: Seq<char>,
    source: Seq<char>,
    r: Result<StoreEntry, Error>,
) -> bool {
    if pre.has_spec(index) {
        &&& post == pre
        &&& r matches Err(Error::AlreadyInStore(n)) && n@ == index
    } else {
        match parsed_markup(source) {
            Err(msg) => {
                &&& post == pre
                &&& r matches Err(Error::SourceReadFailure(c)) && c.entry_index@ == index
                    && c.failure_message@ == msg
            },
            Ok(raws) => {
                &&& r matches Ok(e) && e.holds(index, source, raws)
                &&& post.indices@ == pre.indices@.push(r->Ok_0)
            },
        }
    }
}

impl XmlStore {
    /// Names are unique and every entry is well formed.
    pub open spec fn wf(&self) -> bool {
        &&& forall|i: int, j: int|
            0 <= i < j < self.indices@.len() ==> (#[trigger] self.indices@[i]).index@ != (
            #[trigger] self.indices@[j]).index@
        &&& forall|i: int| 0 <= i < self.indices@.len() ==> (#[trigger] self.indices@[i]).wf()
    }

    pub open spec fn has_spec(&self, index: Seq<char>) -> bool {
        exists|i: int| 0 <= i < self.indices@.len() && (#[trigger] self.indices@[i]).index@ == index
    }

    pub fn new() -> (r: XmlStore)
        ensures
            r.wf(),
            r.indices@.len() == 0,
    {
        XmlStore { indices: Vec::new() }
    }

    /// Position of the entry registered under `index`.
    fn position(&self, index: &String) -> (r: Option<usize>)
        ensures
            r is Some == self.has_spec(index@),
            r matches Some(i) ==> i < self.indices@.len() && self.indices@[i as int].index@ == index@,
    {
        let mut i: usize = 0;
        while i < self.indices.len()
            invariant
                i <= self.indices@.len(),
                forall|j: int| 0 <= j < i ==> (#[trigger] self.indices@[j]).index@ != index@,
            decreases self.indices@.len() - i,
        {
            if self.indices[i].index == *index {
                return Some(i);
            }
            i = i + 1;
        }
        None
    }

    /// Whether a document is registered under `index`.
    pub fn has(&self, index: String) -> (r: bool)
        ensures
            r == self.has_spec(index@),
    {
        self.position(&index).is_some()
    }

    /// The entry registered under `index`.
    pub fn get(&self, index: String) -> (r: Option<&StoreEntry>)
        ensures
            r is Some == self.has_spec(index@),
            r matches Some(e) ==> e.index@ == index@ && self.indices@.contains(*e),
    {
        match self.position(&index) {
            Some(i) => Some(&self.indices[i]),
            None => None,
        }
    }

    /// Parses `source` and registers it under `index`. Fails, leaving the
    /// store as it was, where the name is taken or the markup is malformed.
    pub fn append_from_source(&mut self, index: String, source: String) -> (r: Result<&StoreEntry, Error>)
        requires
            old(self).wf(),
        ensures
            final(self).wf(),
            registration(*old(self), *final(self), index@, source@, match r {
                Ok(e) => Ok(*e),
                Err(e) => Err(e),
            }),
    {
        if self.has(index.clone()) {
            return Err(Error::AlreadyInStore(index));
        }
        match parse_markup(source.as_str()) {
            Err(message) => Err(
                Error::SourceReadFailure(
                    SourceReadFailureContents { entry_index: index, failure_message: message },
                ),
            ),
            Ok(raws) => {
                let (document, nodes) = Document::from_markup(&raws);
                let entry = StoreEntry { index, nodes, source, document };
                self.indices.push(entry);
                let last = self.indices.len() - 1;
                Ok(&self.indices[last])
            },
        }
    }
}

/// Registering well-formed markup under a name leaves that name
/// registered; registering anything under it again is refused with
/// `AlreadyInStore` and leaves the store, and so the first entry, unchanged.
pub proof fn lemma_registration_is_final(
    s0: XmlStore,
    s1: XmlStore,
    s2: XmlStore,
    name: Seq<char>,
    text: Seq<char>,
    other: Seq<char>,
    r1: Result<StoreEntry, Error>,
    r2: Result<StoreEntry, Error>,
)
    requires
        parsed_markup(text) is Ok,
        registration(s0, s1, name, text, r1),
        registration(s1, s2, name, other, r2),
    ensures
        s1.has_spec(name),
        r2 matches Err(Error::AlreadyInStore(n)) && n@ == name,
        s2 == s1,
{
    if !s0.has_spec(name) {
        let k = s0.indices@.len() as int;
        assert(s1.indices@[k] == r1->Ok_0);
    }
}

/// Every node of a registered document carries a `("Default", "id")`
/// attribute, and where the markup gives no identity twice, no two nodes of
/// the document share one.
pub proof fn lemma_identities_unique(
    e: StoreEntry,
    index: Seq<char>,
    source: Seq<char>,
    raws: Seq<crate::markup::RawNode>,
)
    requires
        e.holds(index, source, raws),
    ensures
        forall|i: int| 0 <= i < e.document@.len() ==> (#[trigger] id_of(e.document@[i])) is Some,
        forest_distinct(raws, raws.len() as int) ==> forall|i: int, j: int|
            0 <= i < j < e.document@.len() ==> id_of(#[trigger] e.document@[i]) != id_of(
                #[trigger] e.document@[j],
            ),
{
    assert forall|i: int| 0 <= i < e.document@.len() implies (#[trigger] id_of(e.document@[i])) is Some by {
        assert(e.document@[i].has_id());
    }
}

} // verus!
