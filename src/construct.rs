//! Building a node tree from parsed markup: names are resolved, attribute
//! keys are split into namespace and name, every node is given an identity,
//! and character data becomes a `text-content` node.

use vstd::prelude::*;
use crate::markup::{RawElement, RawNode, random_uuid, trim_text, trimmed};
use crate::xml::{
    attr_lookup, default_ns, id_name, lookup_attribute, node_linked, Attribute, Document, NodeAsync,
    XmlNode,
};

verus! {

broadcast use vstd::std_specs::vec::axiom_vec_index_decreases;

/// Position of the first `':'` in `k`, or `k.len()` where there is none.
pub open spec fn colon_at(k: Seq<char>) -> int
    decreases k.len(),
{
    if k.len() == 0 {
        0
    } else if k[0] == ':' {
        0
    } else {
        1 + colon_at(k.drop_first())
    }
}

/// Namespace key of an attribute key: what stands before the first `':'`,
/// or `"Default"` where that is empty or there is no `':'`.
pub open spec fn key_namespace(k: Seq<char>) -> Seq<char> {
    let p = colon_at(k);
    if 0 < p < k.len() {
        k.take(p)
    } else {
        default_ns()
    }
}

/// Local name of an attribute key: what follows the first `':'`, or the
/// whole key.
pub open spec fn key_name(k: Seq<char>) -> Seq<char> {
    let p = colon_at(k);
    if p < k.len() {
        k.skip(p + 1)
    } else {
        k
    }
}

/// A binding key as stored: the empty key becomes `"Default"`.
pub open spec fn binding_key(k: Seq<char>) -> Seq<char> {
    if k.len() == 0 {
        default_ns()
    } else {
        k
    }
}

pub open spec fn raw_bindings(raw: RawElement) -> Seq<(String, String)> {
    match raw.namespaces {
        Some(v) => v@,
        None => seq![],
    }
}

/// The stored key of the first binding whose URI is `uri`.
pub open spec fn resolve_ns(b: Seq<(String, String)>, uri: Seq<char>) -> Option<Seq<char>>
    decreases b.len(),
{
    if b.len() == 0 {
        None
    } else {
        match resolve_ns(b.drop_last(), uri) {
            Some(k) => Some(k),
            None => if b.last().1@ == uri {
                Some(binding_key(b.last().0@))
            } else {
                None
            },
        }
    }
}

/// The namespace key of an element: its URI resolved against its bindings,
/// or `"Default"`.
pub open spec fn element_ns(raw: RawElement) -> Seq<char> {
    match raw.namespace {
        Some(uri) => match resolve_ns(raw_bindings(raw), uri@) {
            Some(k) => k,
            None => default_ns(),
        },
        None => default_ns(),
    }
}

/// A synthesized identity: `"pk-"` followed by a 36-character UUID, padded
/// with `'-'` in the unlikely case that it was already in use.
pub open spec fn is_synthesized_id(v: Seq<char>) -> bool {
    v.len() >= 39 && v.take(3) == "pk-"@
}

/// The first entries of `attrs` are the raw attributes with split keys, and
/// an identity entry follows exactly when none of them is `("Default", "id")`.
pub open spec fn attributes_from(attrs: Seq<Attribute>, raw: Seq<(String, String)>) -> bool {
    let n = raw.len();
    &&& n <= attrs.len()
    &&& forall|i: int|
        0 <= i < n ==> {
            &&& (#[trigger] attrs[i]).namespace@ == key_namespace(raw[i].0@)
            &&& attrs[i].name@ == key_name(raw[i].0@)
            &&& attrs[i].value@ == raw[i].1@
        }
    &&& if attr_lookup(attrs.take(n as int), default_ns(), id_name()) is Some {
        attrs.len() == n
    } else {
        &&& attrs.len() == n + 1
        &&& attrs[n as int].namespace@ == default_ns()
        &&& attrs[n as int].name@ == id_name()
        &&& is_synthesized_id(attrs[n as int].value@)
    }
}

/// The node's own fields are those normalized from `raw`.
pub open spec fn element_fields(n: XmlNode, raw: RawElement) -> bool {
    &&& n.prefix == raw.prefix
    &&& n.namespace@ == element_ns(raw)
    &&& n.namespaces@.len() == raw_bindings(raw).len()
    &&& forall|i: int|
        0 <= i < n.namespaces@.len() ==> {
            &&& (#[trigger] n.namespaces@[i]).0@ == binding_key(raw_bindings(raw)[i].0@)
            &&& n.namespaces@[i].1@ == raw_bindings(raw)[i].1@
        }
    &&& n.name@ == raw.name@
    &&& attributes_from(n.attributes@, raw.attributes@)
}

pub open spec fn text_name() -> Seq<char> {
    "text-content"@
}

pub open spec fn content_name() -> Seq<char> {
    "content"@
}

/// The node is the `text-content` node made from character data `t`.
pub open spec fn text_fields(n: XmlNode, t: Seq<char>) -> bool {
    &&& n.prefix is None
    &&& n.namespace@ == default_ns()
    &&& n.namespaces@.len() == 0
    &&& n.name@ == text_name()
    &&& n.children@.len() == 0
    &&& n.attributes@.len() == 2
    &&& n.attributes@[0].namespace@ == default_ns()
    &&& n.attributes@[0].name@ == id_name()
    &&& is_synthesized_id(n.attributes@[0].value@)
    &&& n.attributes@[1].namespace@ == default_ns()
    &&& n.attributes@[1].name@ == content_name()
    &&& n.attributes@[1].value@ == trimmed(t)
}

/// The subtree at `i` is the tree built from `raw`.
pub open spec fn mirrors(nodes: Seq<XmlNode>, i: int, raw: RawElement) -> bool
    decreases raw, raw.children@.len() + 1,
{
    &&& 0 <= i < nodes.len()
    &&& element_fields(nodes[i], raw)
    &&& kids_mirror(nodes, nodes[i].children@, raw, raw.children@.len() as int)
}

/// `kids` are the nodes built from the first `k` raw children of `raw`:
/// one for each element or text item, none for the others.
pub open spec fn kids_mirror(nodes: Seq<XmlNode>, kids: Seq<NodeAsync>, raw: RawElement, k: int) -> bool
    decreases raw, k,
{
    if k <= 0 || k > raw.children@.len() {
        kids.len() == 0
    } else {
        match raw.children@[k - 1] {
            RawNode::Element(e) => {
                &&& kids.len() > 0
                &&& mirrors(nodes, kids.last().index as int, e)
                &&& kids_mirror(nodes, kids.drop_last(), raw, k - 1)
            },
            RawNode::Text(t) => {
                &&& kids.len() > 0
                &&& kids.last().index < nodes.len()
                &&& text_fields(nodes[kids.last().index as int], t@)
                &&& kids_mirror(nodes, kids.drop_last(), raw, k - 1)
            },
            _ => kids_mirror(nodes, kids, raw, k - 1),
        }
    }
}

/// `roots` are the nodes built from the first `k` top-level items: one for
/// each element, none for the others.
pub open spec fn roots_mirror(nodes: Seq<XmlNode>, roots: Seq<NodeAsync>, raws: Seq<RawNode>, k: int) -> bool
    decreases k,
{
    if k <= 0 || k > raws.len() {
        roots.len() == 0
    } else {
        match raws[k - 1] {
            RawNode::Element(e) => {
                &&& roots.len() > 0
                &&& mirrors(nodes, roots.last().index as int, e)
                &&& nodes[roots.last().index as int].parent is None
                &&& roots_mirror(nodes, roots.drop_last(), raws, k - 1)
            },
            _ => roots_mirror(nodes, roots, raws, k - 1),
        }
    }
}

pub open spec fn all_linked(nodes: Seq<XmlNode>) -> bool {
    forall|j: int| 0 <= j < nodes.len() ==> #[trigger] node_linked(nodes, j)
}

/// `b` agrees with `a` on positions `lo` up to `a.len()` and is no shorter.
pub open spec fn agrees_from(a: Seq<XmlNode>, b: Seq<XmlNode>, lo: int) -> bool {
    &&& a.len() <= b.len()
    &&& forall|j: int| lo <= j < a.len() ==> #[trigger] b[j] == a[j]
}

proof fn lemma_mirrors_frame(a: Seq<XmlNode>, b: Seq<XmlNode>, i: int, raw: RawElement)
    requires
        all_linked(a),
        agrees_from(a, b, i),
        mirrors(a, i, raw),
    ensures
        mirrors(b, i, raw),
    decreases raw, raw.children@.len() + 1,
{
    assert(b[i] == a[i]);
    assert(node_linked(a, i));
    lemma_kids_frame(a, b, i + 1, a[i].children@, raw, raw.children@.len() as int);
}

proof fn lemma_kids_frame(
    a: Seq<XmlNode>,
    b: Seq<XmlNode>,
    lo: int,
    kids: Seq<NodeAsync>,
    raw: RawElement,
    k: int,
)
    requires
        all_linked(a),
        agrees_from(a, b, lo),
        forall|j: int| 0 <= j < kids.len() ==> lo <= (#[trigger] kids[j]).index < a.len(),
        kids_mirror(a, kids, raw, k),
    ensures
        kids_mirror(b, kids, raw, k),
    decreases raw, k,
{
    if k <= 0 || k > raw.children@.len() {
    } else {
        match raw.children@[k - 1] {
            RawNode::Element(e) => {
                let c = kids.last().index as int;
                assert(kids.last() == kids[kids.len() - 1]);
                assert(agrees_from(a, b, c));
                lemma_mirrors_frame(a, b, c, e);
                lemma_kids_frame(a, b, lo, kids.drop_last(), raw, k - 1);
            },
            RawNode::Text(t) => {
                assert(kids.last() == kids[kids.len() - 1]);
                lemma_kids_frame(a, b, lo, kids.drop_last(), raw, k - 1);
            },
            _ => {
                lemma_kids_frame(a, b, lo, kids, raw, k - 1);
            },
        }
    }
}

proof fn lemma_roots_frame(a: Seq<XmlNode>, b: Seq<XmlNode>, roots: Seq<NodeAsync>, raws: Seq<RawNode>, k: int)
    requires
        all_linked(a),
        agrees_from(a, b, 0),
        forall|j: int| 0 <= j < roots.len() ==> (#[trigger] roots[j]).index < a.len(),
        roots_mirror(a, roots, raws, k),
    ensures
        roots_mirror(b, roots, raws, k),
    decreases k,
{
    if k <= 0 || k > raws.len() {
    } else {
        match raws[k - 1] {
            RawNode::Element(e) => {
                let c = roots.last().index as int;
                assert(roots.last() == roots[roots.len() - 1]);
                assert(agrees_from(a, b, c));
                lemma_mirrors_frame(a, b, c, e);
                lemma_roots_frame(a, b, roots.drop_last(), raws, k - 1);
            },
            _ => {
                lemma_roots_frame(a, b, roots, raws, k - 1);
            },
        }
    }
}

} // verus!

verus! {

proof fn lemma_colon_at(k: Seq<char>, i: int)
    requires
        0 <= i <= k.len(),
        forall|j: int| 0 <= j < i ==> k[j] != ':',
        i == k.len() || k[i] == ':',
    ensures
        colon_at(k) == i,
    decreases i,
{
    if i > 0 {
        lemma_colon_at(k.drop_first(), i - 1);
    }
}

/// Position of the first `':'` in `s`, or its length where there is none.
fn find_colon(s: &str) -> (r: usize)
    ensures
        r == colon_at(s@),
        r <= s@.len(),
{
    let len = s.unicode_len();
    let mut i: usize = 0;
    while i < len && s.get_char(i) != ':'
        invariant
            i <= len,
            len == s@.len(),
            forall|j: int| 0 <= j < i ==> s@[j] != ':',
        decreases len - i,
    {
        i = i + 1;
    }
    proof {
        lemma_colon_at(s@, i as int);
    }
    i
}

/// Splits an attribute key into its namespace key and its local name.
pub fn split_key(k: &str) -> (r: (String, String))
    ensures
        r.0@ == key_namespace(k@),
        r.1@ == key_name(k@),
{
    let len = k.unicode_len();
    let p = find_colon(k);
    if p < len {
        let name = k.substring_char(p + 1, len).to_owned();
        assert(name@ =~= k@.skip(p + 1));
        let ns = if p > 0 {
            let t = k.substring_char(0, p).to_owned();
            assert(t@ =~= k@.take(p as int));
            t
        } else {
            "Default".to_owned()
        };
        (ns, name)
    } else {
        ("Default".to_owned(), k.to_owned())
    }
}

proof fn lemma_id_set_push(used: Seq<String>, x: String)
    ensures
        id_set(used.push(x)) == id_set(used).insert(x@),
{
    let p = used.push(x);
    assert forall|v: Seq<char>| id_set(p).contains(v) <==> id_set(used).insert(x@).contains(v) by {
        if id_set(p).contains(v) {
            let k = choose|k: int| 0 <= k < p.len() && (#[trigger] p[k])@ == v;
            if k < used.len() {
                assert(used[k]@ == v);
            }
        }
        if id_set(used).contains(v) {
            let k = choose|k: int| 0 <= k < used.len() && (#[trigger] used[k])@ == v;
            assert(p[k]@ == v);
        }
        if v == x@ {
            assert(p[used.len() as int]@ == v);
        }
    }
    assert(id_set(p) =~= id_set(used).insert(x@));
}

/// Whether `used` holds the text `v`.
fn holds_text(used: &Vec<String>, v: &String) -> (r: bool)
    ensures
        r == id_set(used@).contains(v@),
{
    let mut i: usize = 0;
    while i < used.len()
        invariant
            i <= used@.len(),
            forall|k: int| 0 <= k < i ==> (#[trigger] used@[k])@ != v@,
        decreases used@.len() - i,
    {
        if used[i] == *v {
            assert(used@[i as int]@ == v@);
            return true;
        }
        i = i + 1;
    }
    false
}

/// A length no text in `used` exceeds.
fn longest(used: &Vec<String>) -> (r: usize)
    ensures
        forall|k: int| 0 <= k < used@.len() ==> (#[trigger] used@[k])@.len() <= r,
{
    let mut m: usize = 0;
    let mut i: usize = 0;
    while i < used.len()
        invariant
            i <= used@.len(),
            forall|k: int| 0 <= k < i ==> (#[trigger] used@[k])@.len() <= m,
        decreases used@.len() - i,
    {
        let l = used[i].as_str().unicode_len();
        if l > m {
            m = l;
        }
        i = i + 1;
    }
    m
}

/// A fresh identity, `"pk-"` followed by a random UUID, that `used` does not
/// hold yet; it is added to `used`.
fn fresh_id(used: &mut Vec<String>) -> (r: String)
    ensures
        is_synthesized_id(r@),
        !id_set(old(used)@).contains(r@),
        id_set(final(used)@) == id_set(old(used)@).insert(r@),
{
    let mut id = "pk-".to_owned();
    let u = random_uuid();
    id.append(u.as_str());
    proof {
        reveal_strlit("pk-");
        assert(id@.take(3) =~= "pk-"@);
    }
    if holds_text(used, &id) {
        let m = longest(used);
        while id.as_str().unicode_len() <= m
            invariant
                id@.len() >= 39,
                id@.take(3) == "pk-"@,
            decreases m + 1 - id@.len(),
        {
            let ghost before = id@;
            id.append("-");
            proof {
                reveal_strlit("-");
            }
            assert(id@.len() == before.len() + 1);
            assert(id@.take(3) =~= before.take(3));
        }
        assert forall|k: int| 0 <= k < used@.len() implies (#[trigger] used@[k])@ != id@ by {
            assert(used@[k]@.len() <= m);
        }
    }
    let ghost before = used@;
    used.push(id.clone());
    proof {
        lemma_id_set_push(before, id);
    }
    id
}

/// The attributes of an element: the raw ones with split keys, then a fresh
/// identity where none was given.
fn element_attributes(raw: &Vec<(String, String)>, used: &mut Vec<String>) -> (r: Vec<Attribute>)
    ensures
        attributes_from(r@, raw@),
        attr_lookup(r@, default_ns(), id_name()) is Some,
        raw_id(raw@) is Some ==> final(used)@ == old(used)@ && attr_lookup(r@, default_ns(), id_name())
            == raw_id(raw@),
        raw_id(raw@) is None ==> match attr_lookup(r@, default_ns(), id_name()) {
            Some(w) => !id_set(old(used)@).contains(w) && id_set(final(used)@) == id_set(
                old(used)@,
            ).insert(w),
            None => false,
        },
{
    let mut attrs: Vec<Attribute> = Vec::new();
    let mut i: usize = 0;
    while i < raw.len()
        invariant
            i <= raw@.len(),
            attrs@.len() == i,
            forall|j: int|
                0 <= j < i ==> {
                    &&& (#[trigger] attrs@[j]).namespace@ == key_namespace(raw@[j].0@)
                    &&& attrs@[j].name@ == key_name(raw@[j].0@)
                    &&& attrs@[j].value@ == raw@[j].1@
                },
        decreases raw@.len() - i,
    {
        let (ns, name) = split_key(raw[i].0.as_str());
        attrs.push(Attribute { namespace: ns, name, value: raw[i].1.clone() });
        i = i + 1;
    }
    let n = attrs.len();
    assert(attrs@.take(n as int) =~= attrs@);
    proof {
        lemma_raw_id(attrs@, raw@, n as int);
        assert(raw@.take(n as int) =~= raw@);
    }
    let found = lookup_attribute(&attrs, "Default", "id");
    if found.is_none() {
        let id = fresh_id(used);
        let ghost before = attrs@;
        attrs.push(Attribute { namespace: "Default".to_owned(), name: "id".to_owned(), value: id });
        assert(attrs@.take(n as int) =~= before);
        assert(attrs@.drop_last() =~= before);
    }
    attrs
}

/// A binding key as stored.
fn stored_binding_key(k: &String) -> (r: String)
    ensures
        r@ == binding_key(k@),
{
    if k.as_str().is_empty() {
        "Default".to_owned()
    } else {
        k.clone()
    }
}

/// The namespace bindings of an element, with the empty key stored as `"Default"`.
fn element_bindings(raw: &RawElement) -> (r: Vec<(String, String)>)
    ensures
        r@.len() == raw_bindings(*raw).len(),
        forall|i: int|
            0 <= i < r@.len() ==> {
                &&& (#[trigger] r@[i]).0@ == binding_key(raw_bindings(*raw)[i].0@)
                &&& r@[i].1@ == raw_bindings(*raw)[i].1@
            },
{
    let mut out: Vec<(String, String)> = Vec::new();
    match &raw.namespaces {
        Some(b) => {
            let mut i: usize = 0;
            while i < b.len()
                invariant
                    i <= b@.len(),
                    raw_bindings(*raw) == b@,
                    out@.len() == i,
                    forall|j: int|
                        0 <= j < i ==> {
                            &&& (#[trigger] out@[j]).0@ == binding_key(b@[j].0@)
                            &&& out@[j].1@ == b@[j].1@
                        },
                decreases b@.len() - i,
            {
                out.push((stored_binding_key(&b[i].0), b[i].1.clone()));
                i = i + 1;
            }
        },
        None => {},
    }
    out
}

/// The namespace key of an element.
fn element_namespace(raw: &RawElement) -> (r: String)
    ensures
        r@ == element_ns(*raw),
{
    match &raw.namespace {
        None => "Default".to_owned(),
        Some(uri) => {
            let mut found: Option<String> = None;
            match &raw.namespaces {
                Some(b) => {
                    let mut i: usize = 0;
                    while i < b.len()
                        invariant
                            i <= b@.len(),
                            found is Some == resolve_ns(b@.take(i as int), uri@) is Some,
                            found matches Some(v) ==> resolve_ns(b@.take(i as int), uri@) == Some(
                                v@,
                            ),
                        decreases b@.len() - i,
                    {
                        assert(b@.take(i + 1).drop_last() =~= b@.take(i as int));
                        if found.is_none() && b[i].1 == *uri {
                            found = Some(stored_binding_key(&b[i].0));
                        }
                        i = i + 1;
                    }
                    assert(b@.take(i as int) =~= b@);
                },
                None => {},
            }
            match found {
                Some(k) => k,
                None => "Default".to_owned(),
            }
        },
    }
}

/// The `text-content` node made from character data `t`.
fn text_node(t: &String, parent: NodeAsync, used: &mut Vec<String>) -> (r: XmlNode)
    ensures
        text_fields(r, t@),
        r.parent == Some(parent),
        r.has_id(),
        match id_of(r) {
            Some(w) => !id_set(old(used)@).contains(w) && id_set(final(used)@) == id_set(
                old(used)@,
            ).insert(w),
            None => false,
        },
{
    let id = fresh_id(used);
    let content = trim_text(t.as_str());
    let mut attributes: Vec<Attribute> = Vec::new();
    attributes.push(Attribute { namespace: "Default".to_owned(), name: "id".to_owned(), value: id });
    attributes.push(
        Attribute { namespace: "Default".to_owned(), name: "content".to_owned(), value: content },
    );
    proof {
        reveal_strlit("id");
        reveal_strlit("content");
        assert(attributes@.drop_last() =~= seq![attributes@[0]]);
        assert("content"@.len() == 7);
        assert("id"@.len() == 2);
        assert(attributes@[1].name@ == content_name());
        assert(attributes@[1].name@ != id_name());
        assert(attr_lookup(seq![attributes@[0]], default_ns(), id_name()) is Some);
        assert(attr_lookup(attributes@, default_ns(), id_name()) == attr_lookup(
            attributes@.drop_last(),
            default_ns(),
            id_name(),
        ));
        assert(attr_lookup(seq![attributes@[0]], default_ns(), id_name()) == Some(attributes@[0].value@));
    }
    XmlNode {
        prefix: None,
        namespace: "Default".to_owned(),
        namespaces: Vec::new(),
        name: "text-content".to_owned(),
        attributes,
        children: Vec::new(),
        parent: Some(parent),
    }
}

} // verus!

verus! {

impl Document {
    /// Builds the subtree of `raw` into the arena, as a root or as the last
    /// child of `parent`, depth first and children in source order. Every
    /// identity synthesized on the way is one that `used` did not hold, and
    /// is added to it.
    pub fn build_element(
        &mut self,
        raw: &RawElement,
        parent: Option<NodeAsync>,
        used: &mut Vec<String>,
    ) -> (r: NodeAsync)
        requires
            old(self).wf(),
            parent matches Some(p) ==> old(self).valid(p),
            subtree_ids(*raw).subset_of(id_set(old(used)@)),
            ids_between(old(self)@, 0, old(self)@.len() as int).subset_of(id_set(old(used)@)),
        ensures
            final(self).wf(),
            r.index == old(self)@.len(),
            mirrors(final(self)@, r.index as int, *raw),
            final(self)@[r.index as int].parent == parent,
            forall|i: int| 0 <= i < old(self)@.len() && (parent matches Some(p) ==> i != p.index)
                ==> #[trigger] final(self)@[i] == old(self)@[i],
            forall|i: int| 0 <= i < old(self)@.len() ==> (#[trigger] final(self)@[i]).attributes
                == old(self)@[i].attributes,
            parent matches Some(p) ==> {
                let o = old(self)@[p.index as int];
                let f = final(self)@[p.index as int];
                &&& f.children@ == o.children@.push(r)
                &&& f.prefix == o.prefix
                &&& f.namespace == o.namespace
                &&& f.namespaces == o.namespaces
                &&& f.name == o.name
                &&& f.attributes == o.attributes
                &&& f.parent == o.parent
            },
            id_set(old(used)@).subset_of(id_set(final(used)@)),
            ids_between(final(self)@, 0, final(self)@.len() as int).subset_of(id_set(final(used)@)),
            forall|v: Seq<char>|
                ids_between(final(self)@, old(self)@.len() as int, final(self)@.len() as int).contains(v)
                    ==> subtree_ids(*raw).contains(v) || !id_set(old(used)@).contains(v),
            ids_distinct(old(self)@) && distinct_ids(*raw) && subtree_ids(*raw).disjoint(
                ids_between(old(self)@, 0, old(self)@.len() as int),
            ) ==> ids_distinct(final(self)@),
        decreases raw,
    {
        let ghost used0 = used@;
        let ghost nodes0 = self@;
        let ghost d = ids_distinct(nodes0) && distinct_ids(*raw) && subtree_ids(*raw).disjoint(
            ids_between(nodes0, 0, nodes0.len() as int),
        );
        let prefix = match &raw.prefix {
            Some(p) => Some(p.clone()),
            None => None,
        };
        let attributes = element_attributes(&raw.attributes, used);
        let node = XmlNode {
            prefix,
            namespace: element_namespace(raw),
            namespaces: element_bindings(raw),
            name: raw.name.clone(),
            attributes,
            children: Vec::new(),
            parent,
        };
        let h = self.push_node(node, parent);
        let ghost pushed = self@;
        proof {
            let w = id_of(self@[h.index as int])->Some_0;
            assert(id_of(self@[h.index as int]) == Some(w));
            assert(own_ids(*raw).subset_of(subtree_ids(*raw)));
            if raw_id(raw.attributes@) is Some {
                assert(own_ids(*raw).contains(w));
            }
            lemma_ids_push(nodes0, self@, 0);
            lemma_ids_push(nodes0, self@, h.index as int);
            assert(ids_between(nodes0, h.index as int, nodes0.len() as int) =~= Set::empty());
            if d {
                assert(!ids_between(nodes0, 0, nodes0.len() as int).contains(w));
                lemma_distinct_push(nodes0, self@);
            }
        }
        let mut k: usize = 0;
        while k < raw.children.len()
            invariant
                self.wf(),
                h.index == old(self)@.len(),
                h.index < self@.len(),
                nodes0 == old(self)@,
                used0 == old(used)@,
                pushed.len() == old(self)@.len() + 1,
                element_fields(self@[h.index as int], *raw),
                self@[h.index as int].parent == parent,
                kids_mirror(self@, self@[h.index as int].children@, *raw, k as int),
                k <= raw.children@.len(),
                forall|i: int| 0 <= i < old(self)@.len() && (parent matches Some(p) ==> i != p.index)
                    ==> #[trigger] self@[i] == old(self)@[i],
                forall|i: int| 0 <= i < old(self)@.len() ==> (#[trigger] self@[i]).attributes
                    == old(self)@[i].attributes,
                parent matches Some(p) ==> self@[p.index as int] == pushed[p.index as int],
                subtree_ids(*raw).subset_of(id_set(used0)),
                id_set(used0).subset_of(id_set(used@)),
                ids_between(self@, 0, self@.len() as int).subset_of(id_set(used@)),
                forall|v: Seq<char>|
                    ids_between(self@, h.index as int, self@.len() as int).contains(v) ==> own_ids(
                        *raw,
                    ).contains(v) || kids_ids(*raw, k as int).contains(v) || !id_set(used0).contains(v),
                d == (ids_distinct(nodes0) && distinct_ids(*raw) && subtree_ids(*raw).disjoint(
                    ids_between(nodes0, 0, nodes0.len() as int),
                )),
                d ==> ids_distinct(self@),
            decreases raw.children@.len() - k,
        {
            let ghost before = self@;
            let ghost used_before = used@;
            let ghost kids = self@[h.index as int].children@;
            proof {
                assert(node_linked(before, h.index as int));
                lemma_kid_facts(*raw, raw.children@.len() as int, k as int);
                lemma_kids_ids_grow(*raw, k as int, k + 1);
                lemma_ids_extend(nodes0, before, 0);
                lemma_ids_same(nodes0, before, 0, nodes0.len() as int);
            }
            match &raw.children[k] {
                RawNode::Element(e) => {
                    proof {
                        assert(kids_ids(*raw, k + 1) == kids_ids(*raw, k as int).union(subtree_ids(*e)));
                        lemma_kids_ids_grow(*raw, k + 1, raw.children@.len() as int);
                        if d {
                            assert forall|v: Seq<char>| subtree_ids(*e).contains(v) implies !ids_between(
                                before,
                                0,
                                before.len() as int,
                            ).contains(v) by {
                                if ids_between(before, 0, before.len() as int).contains(v) {
                                    if ids_between(nodes0, 0, nodes0.len() as int).contains(v) {
                                    } else {
                                        assert(ids_between(before, h.index as int, before.len() as int).contains(v));
                                    }
                                }
                            }
                        }
                    }
                    let c = self.build_element(e, Some(h), used);
                    proof {
                        assert(agrees_from(before, self@, h.index + 1));
                        lemma_kids_frame(before, self@, h.index + 1, kids, *raw, k as int);
                        assert(self@[h.index as int].children@.drop_last() =~= kids);
                        lemma_ids_extend(before, self@, h.index as int);
                        assert forall|i: int| 0 <= i < before.len() implies id_of(#[trigger] self@[i]) == id_of(before[i]) by {
                            assert(self@[i].attributes == before[i].attributes);
                        }
                    }
                },
                RawNode::Text(t) => {
                    let tn = text_node(t, h, used);
                    let c = self.push_node(tn, Some(h));
                    proof {
                        assert(agrees_from(before, self@, h.index + 1));
                        lemma_kids_frame(before, self@, h.index + 1, kids, *raw, k as int);
                        assert(self@[h.index as int].children@.drop_last() =~= kids);
                        assert forall|i: int| 0 <= i < before.len() implies id_of(#[trigger] self@[i]) == id_of(before[i]) by {
                            assert(self@[i].attributes == before[i].attributes);
                        }
                        lemma_ids_push(before, self@, 0);
                        lemma_ids_push(before, self@, h.index as int);
                        assert(kids_ids(*raw, k + 1) == kids_ids(*raw, k as int));
                        if d {
                            lemma_distinct_push(before, self@);
                        }
                    }
                },
                _ => {
                    proof {
                        assert(kids_ids(*raw, k + 1) == kids_ids(*raw, k as int));
                    }
                },
            }
            k = k + 1;
        }
        proof {
            assert forall|i: int| 0 <= i < old(self)@.len() implies id_of(#[trigger] self@[i]) == id_of(nodes0[i]) by {
                assert(self@[i].attributes == nodes0[i].attributes);
            }
        }
        h
    }

    /// Builds the forest of the parsed top-level items: one root for each
    /// element, in source order; other top-level items are dropped. Where
    /// the source gives no identity twice, no two nodes share one.
    pub fn from_markup(raws: &Vec<RawNode>) -> (r: (Document, Vec<NodeAsync>))
        ensures
            r.0.wf(),
            roots_mirror(r.0@, r.1@, raws@, raws@.len() as int),
            forall|j: int| 0 <= j < r.1@.len() ==> r.0.valid(#[trigger] r.1@[j]),
            forest_distinct(raws@, raws@.len() as int) ==> ids_distinct(r.0@),
    {
        let mut used = forest_source_ids(raws);
        let ghost used0 = used@;
        let ghost all = raws@.len() as int;
        let mut doc = Document::new();
        let mut roots: Vec<NodeAsync> = Vec::new();
        proof {
            assert(ids_between(doc@, 0, 0) =~= Set::empty());
        }
        let mut k: usize = 0;
        while k < raws.len()
            invariant
                doc.wf(),
                k <= raws@.len(),
                all == raws@.len(),
                roots_mirror(doc@, roots@, raws@, k as int),
                forall|j: int| 0 <= j < roots@.len() ==> doc.valid(#[trigger] roots@[j]),
                forest_ids(raws@, all).subset_of(id_set(used0)),
                id_set(used0).subset_of(id_set(used@)),
                ids_between(doc@, 0, doc@.len() as int).subset_of(id_set(used@)),
                forall|v: Seq<char>|
                    ids_between(doc@, 0, doc@.len() as int).contains(v) ==> forest_ids(
                        raws@,
                        k as int,
                    ).contains(v) || !id_set(used0).contains(v),
                forest_distinct(raws@, all) ==> ids_distinct(doc@),
            decreases raws@.len() - k,
        {
            proof {
                lemma_root_facts(raws@, all, k as int);
            }
            match &raws[k] {
                RawNode::Element(e) => {
                    let ghost before = doc@;
                    let ghost used_before = used@;
                    let ghost old_roots = roots@;
                    proof {
                        assert(forest_ids(raws@, k + 1) == forest_ids(raws@, k as int).union(
                            subtree_ids(*e),
                        ));
                    }
                    let h = doc.build_element(e, None, &mut used);
                    proof {
                        assert(agrees_from(before, doc@, 0));
                        lemma_roots_frame(before, doc@, old_roots, raws@, k as int);
                        assert forall|i: int| 0 <= i < before.len() implies id_of(#[trigger] doc@[i])
                            == id_of(before[i]) by {
                            assert(doc@[i] == before[i]);
                        }
                        lemma_ids_extend(before, doc@, 0);
                    }
                    roots.push(h);
                    assert(roots@.drop_last() =~= old_roots);
                },
                _ => {
                    proof {
                        assert(forest_ids(raws@, k + 1) == forest_ids(raws@, k as int));
                    }
                },
            }
            k = k + 1;
        }
        (doc, roots)
    }
}

/// The identity a raw element gives itself.
fn raw_id_exec(attrs: &Vec<(String, String)>) -> (r: Option<String>)
    ensures
        r is Some == raw_id(attrs@) is Some,
        r matches Some(v) ==> raw_id(attrs@) == Some(v@),
{
    let d = "Default".to_owned();
    let id = "id".to_owned();
    let mut found: Option<String> = None;
    let mut i: usize = 0;
    while i < attrs.len()
        invariant
            i <= attrs@.len(),
            d@ == default_ns(),
            id@ == id_name(),
            found is Some == raw_id(attrs@.take(i as int)) is Some,
            found matches Some(v) ==> raw_id(attrs@.take(i as int)) == Some(v@),
        decreases attrs@.len() - i,
    {
        assert(attrs@.take(i + 1).drop_last() =~= attrs@.take(i as int));
        let (ns, name) = split_key(attrs[i].0.as_str());
        if ns == d && name == id {
            found = Some(attrs[i].1.clone());
        }
        i = i + 1;
    }
    assert(attrs@.take(i as int) =~= attrs@);
    found
}

/// Adds to `out` the identities given in the subtree of `raw`.
fn subtree_source_ids(raw: &RawElement, out: &mut Vec<String>)
    ensures
        id_set(final(out)@) == id_set(old(out)@).union(subtree_ids(*raw)),
    decreases raw,
{
    let ghost start = out@;
    match raw_id_exec(&raw.attributes) {
        Some(v) => {
            let ghost before = out@;
            out.push(v);
            proof {
                lemma_id_set_push(before, v);
            }
        },
        None => {},
    }
    proof {
        assert(id_set(out@) =~= id_set(start).union(own_ids(*raw)));
    }
    let mut k: usize = 0;
    while k < raw.children.len()
        invariant
            k <= raw.children@.len(),
            id_set(out@) == id_set(start).union(own_ids(*raw)).union(kids_ids(*raw, k as int)),
        decreases raw.children@.len() - k,
    {
        match &raw.children[k] {
            RawNode::Element(e) => {
                subtree_source_ids(e, out);
            },
            _ => {},
        }
        proof {
            assert(id_set(out@) =~= id_set(start).union(own_ids(*raw)).union(kids_ids(*raw, k + 1)));
        }
        k = k + 1;
    }
    proof {
        assert(id_set(out@) =~= id_set(start).union(subtree_ids(*raw)));
    }
}

/// The identities given anywhere in the parsed items.
fn forest_source_ids(raws: &Vec<RawNode>) -> (r: Vec<String>)
    ensures
        id_set(r@) == forest_ids(raws@, raws@.len() as int),
{
    let mut out: Vec<String> = Vec::new();
    proof {
        assert(id_set(out@) =~= Set::empty());
    }
    let mut k: usize = 0;
    while k < raws.len()
        invariant
            k <= raws@.len(),
            id_set(out@) == forest_ids(raws@, k as int),
        decreases raws@.len() - k,
    {
        match &raws[k] {
            RawNode::Element(e) => {
                subtree_source_ids(e, &mut out);
            },
            _ => {},
        }
        proof {
            assert(id_set(out@) =~= forest_ids(raws@, k + 1));
        }
        k = k + 1;
    }
    out
}

} // verus!

verus! {

/// The identity a raw element gives itself: the value of its last attribute
/// whose key splits into `("Default", "id")`.
pub open spec fn raw_id(attrs: Seq<(String, String)>) -> Option<Seq<char>>
    decreases attrs.len(),
{
    if attrs.len() == 0 {
        None
    } else {
        let a = attrs.last();
        if key_namespace(a.0@) == default_ns() && key_name(a.0@) == id_name() {
            Some(a.1@)
        } else {
            raw_id(attrs.drop_last())
        }
    }
}

/// The identities that `raw` itself gives.
pub open spec fn own_ids(raw: RawElement) -> Set<Seq<char>> {
    match raw_id(raw.attributes@) {
        Some(v) => set![v],
        None => Set::empty(),
    }
}

/// The identities given in the source anywhere in the subtree of `raw`.
pub open spec fn subtree_ids(raw: RawElement) -> Set<Seq<char>>
    decreases raw, raw.children@.len() + 1,
{
    own_ids(raw).union(kids_ids(raw, raw.children@.len() as int))
}

/// The identities given in the subtrees of the first `k` children of `raw`.
pub open spec fn kids_ids(raw: RawElement, k: int) -> Set<Seq<char>>
    decreases raw, k,
{
    if k <= 0 || k > raw.children@.len() {
        Set::empty()
    } else {
        kids_ids(raw, k - 1).union(
            match raw.children@[k - 1] {
                RawNode::Element(e) => subtree_ids(e),
                _ => Set::empty(),
            },
        )
    }
}

/// No identity is given twice in the subtree of `raw`.
pub open spec fn distinct_ids(raw: RawElement) -> bool
    decreases raw, raw.children@.len() + 1,
{
    &&& own_ids(raw).disjoint(kids_ids(raw, raw.children@.len() as int))
    &&& kids_distinct(raw, raw.children@.len() as int)
}

/// No identity is given twice in the subtrees of the first `k` children.
pub open spec fn kids_distinct(raw: RawElement, k: int) -> bool
    decreases raw, k,
{
    if k <= 0 || k > raw.children@.len() {
        true
    } else {
        &&& kids_distinct(raw, k - 1)
        &&& match raw.children@[k - 1] {
            RawNode::Element(e) => distinct_ids(e) && subtree_ids(e).disjoint(kids_ids(raw, k - 1)),
            _ => true,
        }
    }
}

/// The identities given in the first `k` top-level items.
pub open spec fn forest_ids(raws: Seq<RawNode>, k: int) -> Set<Seq<char>>
    decreases k,
{
    if k <= 0 || k > raws.len() {
        Set::empty()
    } else {
        forest_ids(raws, k - 1).union(
            match raws[k - 1] {
                RawNode::Element(e) => subtree_ids(e),
                _ => Set::empty(),
            },
        )
    }
}

/// No identity is given twice in the first `k` top-level items.
pub open spec fn forest_distinct(raws: Seq<RawNode>, k: int) -> bool
    decreases k,
{
    if k <= 0 || k > raws.len() {
        true
    } else {
        &&& forest_distinct(raws, k - 1)
        &&& match raws[k - 1] {
            RawNode::Element(e) => distinct_ids(e) && subtree_ids(e).disjoint(forest_ids(raws, k - 1)),
            _ => true,
        }
    }
}

/// The texts held in `used`.
pub open spec fn id_set(used: Seq<String>) -> Set<Seq<char>> {
    Set::new(|v: Seq<char>| exists|k: int| 0 <= k < used.len() && (#[trigger] used[k])@ == v)
}

pub open spec fn id_of(n: XmlNode) -> Option<Seq<char>> {
    n.lookup(default_ns(), id_name())
}

/// The identities of the nodes at positions `lo` up to `hi`.
pub open spec fn ids_between(nodes: Seq<XmlNode>, lo: int, hi: int) -> Set<Seq<char>> {
    Set::new(|v: Seq<char>| exists|i: int| lo <= i < hi && id_of(#[trigger] nodes[i]) == Some(v))
}

/// No two nodes share an identity.
pub open spec fn ids_distinct(nodes: Seq<XmlNode>) -> bool {
    forall|i: int, j: int|
        0 <= i < j < nodes.len() ==> id_of(#[trigger] nodes[i]) != id_of(#[trigger] nodes[j])
}

proof fn lemma_kids_ids_grow(raw: RawElement, a: int, b: int)
    requires
        a <= b <= raw.children@.len(),
    ensures
        kids_ids(raw, a).subset_of(kids_ids(raw, b)),
    decreases b - a,
{
    if a < b {
        lemma_kids_ids_grow(raw, a, b - 1);
    }
}

proof fn lemma_kid_facts(raw: RawElement, m: int, k: int)
    requires
        0 <= k < m <= raw.children@.len(),
    ensures
        raw.children@[k] matches RawNode::Element(e) ==> subtree_ids(e).subset_of(kids_ids(raw, m)),
        kids_distinct(raw, m) ==> (raw.children@[k] matches RawNode::Element(e) ==> distinct_ids(e)
            && subtree_ids(e).disjoint(kids_ids(raw, k))),
    decreases m - k,
{
    lemma_kids_ids_grow(raw, k + 1, m);
    if k + 1 < m {
        lemma_kid_facts(raw, m - 1, k);
    }
}

proof fn lemma_root_facts(raws: Seq<RawNode>, m: int, k: int)
    requires
        0 <= k < m <= raws.len(),
    ensures
        raws[k] matches RawNode::Element(e) ==> subtree_ids(e).subset_of(forest_ids(raws, m)),
        forest_distinct(raws, m) ==> (raws[k] matches RawNode::Element(e) ==> distinct_ids(e)
            && subtree_ids(e).disjoint(forest_ids(raws, k))),
    decreases m - k,
{
    if k + 1 < m {
        lemma_root_facts(raws, m - 1, k);
    }
}

proof fn lemma_ids_same(a: Seq<XmlNode>, b: Seq<XmlNode>, lo: int, hi: int)
    requires
        forall|i: int| lo <= i < hi ==> id_of(#[trigger] b[i]) == id_of(a[i]),
    ensures
        ids_between(a, lo, hi) == ids_between(b, lo, hi),
{
    assert forall|v: Seq<char>| ids_between(a, lo, hi).contains(v) <==> ids_between(b, lo, hi).contains(v) by {
        if ids_between(a, lo, hi).contains(v) {
            let i = choose|i: int| lo <= i < hi && id_of(#[trigger] a[i]) == Some(v);
            assert(id_of(b[i]) == Some(v));
        }
        if ids_between(b, lo, hi).contains(v) {
            let i = choose|i: int| lo <= i < hi && id_of(#[trigger] b[i]) == Some(v);
            assert(id_of(a[i]) == Some(v));
        }
    }
    assert(ids_between(a, lo, hi) =~= ids_between(b, lo, hi));
}

/// `b` extends `a`, whose nodes keep their identities: the identities of `b`
/// from `lo` on are those of `a` from `lo` on and those of the new nodes.
proof fn lemma_ids_extend(a: Seq<XmlNode>, b: Seq<XmlNode>, lo: int)
    requires
        0 <= lo <= a.len() <= b.len(),
        forall|i: int| 0 <= i < a.len() ==> id_of(#[trigger] b[i]) == id_of(a[i]),
    ensures
        ids_between(b, lo, b.len() as int) == ids_between(a, lo, a.len() as int).union(
            ids_between(b, a.len() as int, b.len() as int),
        ),
{
    let l = ids_between(b, lo, b.len() as int);
    let r = ids_between(a, lo, a.len() as int).union(ids_between(b, a.len() as int, b.len() as int));
    assert forall|v: Seq<char>| l.contains(v) <==> r.contains(v) by {
        if l.contains(v) {
            let i = choose|i: int| lo <= i < b.len() && id_of(#[trigger] b[i]) == Some(v);
            if i < a.len() {
                assert(id_of(a[i]) == Some(v));
                assert(ids_between(a, lo, a.len() as int).contains(v));
            } else {
                assert(ids_between(b, a.len() as int, b.len() as int).contains(v));
            }
        }
        if ids_between(a, lo, a.len() as int).contains(v) {
            let i = choose|i: int| lo <= i < a.len() && id_of(#[trigger] a[i]) == Some(v);
            assert(id_of(b[i]) == Some(v));
        }
        if ids_between(b, a.len() as int, b.len() as int).contains(v) {
            let i = choose|i: int| a.len() <= i < b.len() && id_of(#[trigger] b[i]) == Some(v);
            assert(id_of(b[i]) == Some(v));
        }
    }
    assert(l =~= r);
}

/// `b` is `a` with one node appended, whose identity is `w`.
proof fn lemma_ids_push(a: Seq<XmlNode>, b: Seq<XmlNode>, lo: int)
    requires
        0 <= lo <= a.len(),
        b.len() == a.len() + 1,
        forall|i: int| 0 <= i < a.len() ==> id_of(#[trigger] b[i]) == id_of(a[i]),
        id_of(b.last()) is Some,
    ensures
        ids_between(b, lo, b.len() as int) == ids_between(a, lo, a.len() as int).insert(
            id_of(b.last())->Some_0,
        ),
{
    lemma_ids_extend(a, b, lo);
    let w = id_of(b.last())->Some_0;
    assert forall|v: Seq<char>| ids_between(b, a.len() as int, b.len() as int).contains(v) <==> v == w by {
        if v == w {
            assert(id_of(b[a.len() as int]) == Some(v));
        }
    }
    assert(ids_between(b, a.len() as int, b.len() as int) =~= set![w]);
    assert(ids_between(a, lo, a.len() as int).union(set![w]) =~= ids_between(a, lo, a.len() as int).insert(w));
}

proof fn lemma_distinct_push(a: Seq<XmlNode>, b: Seq<XmlNode>)
    requires
        b.len() == a.len() + 1,
        forall|i: int| 0 <= i < a.len() ==> id_of(#[trigger] b[i]) == id_of(a[i]),
        ids_distinct(a),
        id_of(b.last()) is Some,
        !ids_between(a, 0, a.len() as int).contains(id_of(b.last())->Some_0),
    ensures
        ids_distinct(b),
{
    assert forall|i: int, j: int| 0 <= i < j < b.len() implies id_of(#[trigger] b[i]) != id_of(
        #[trigger] b[j],
    ) by {
        if j < a.len() {
            assert(id_of(a[i]) != id_of(a[j]));
        } else {
            assert(b[j] == b.last());
            if id_of(b[i]) == id_of(b[j]) {
                assert(id_of(a[i]) == Some(id_of(b.last())->Some_0));
                assert(ids_between(a, 0, a.len() as int).contains(id_of(b.last())->Some_0));
            }
        }
    }
}

proof fn lemma_raw_id(attrs: Seq<Attribute>, raw: Seq<(String, String)>, n: int)
    requires
        0 <= n <= raw.len(),
        n <= attrs.len(),
        forall|i: int|
            0 <= i < n ==> {
                &&& (#[trigger] attrs[i]).namespace@ == key_namespace(raw[i].0@)
                &&& attrs[i].name@ == key_name(raw[i].0@)
                &&& attrs[i].value@ == raw[i].1@
            },
    ensures
        attr_lookup(attrs.take(n), default_ns(), id_name()) == raw_id(raw.take(n)),
    decreases n,
{
    if n > 0 {
        lemma_raw_id(attrs, raw, n - 1);
        assert(attrs.take(n).drop_last() =~= attrs.take(n - 1));
        assert(raw.take(n).drop_last() =~= raw.take(n - 1));
        assert(attrs.take(n).last() == attrs[n - 1]);
        assert(raw.take(n).last() == raw[n - 1]);
    }
}

} // verus!
