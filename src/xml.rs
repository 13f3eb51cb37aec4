//! The node tree: nodes live in an arena (`Document`) and refer to each other
//! by index handles. A child's index is always greater than its parent's, so
//! the parent relation is acyclic by construction.

use vstd::prelude::*;

verus! {

/// A handle on a node: its position in the arena of its `Document`.
#[derive(Clone, Copy, Debug, PartialEq, Eq, Structural)]
pub struct NodeAsync {
    pub index: usize,
}

/// One attribute: a namespace key, a local name and a value.
#[derive(Debug)]
pub struct Attribute {
    pub namespace: String,
    pub name: String,
    pub value: String,
}

/// One markup element (or a synthesized `text-content` element).
#[derive(Debug)]
pub struct XmlNode {
    pub prefix: Option<String>,
    /// Namespace key; `"Default"` where none could be resolved.
    pub namespace: String,
    /// Namespace bindings, key to URI, in the order the parser gave them.
    pub namespaces: Vec<(String, String)>,
    pub name: String,
    /// Attribute entries; a later entry for the same key shadows an earlier one.
    pub attributes: Vec<Attribute>,
    pub children: Vec<NodeAsync>,
    pub parent: Option<NodeAsync>,
}

/// An arena of nodes forming a forest.
#[derive(Debug)]
pub struct Document {
    pub nodes: Vec<XmlNode>,
}

pub open spec fn default_ns() -> Seq<char> {
    "Default"@
}

pub open spec fn id_name() -> Seq<char> {
    "id"@
}

/// The value of the last attribute entry with the given key.
pub open spec fn attr_lookup(attrs: Seq<Attribute>, ns: Seq<char>, name: Seq<char>) -> Option<Seq<char>>
    decreases attrs.len(),
{
    if attrs.len() == 0 {
        None
    } else {
        let a = attrs.last();
        if a.namespace@ == ns && a.name@ == name {
            Some(a.value@)
        } else {
            attr_lookup(attrs.drop_last(), ns, name)
        }
    }
}

impl XmlNode {
    pub open spec fn lookup(&self, ns: Seq<char>, name: Seq<char>) -> Option<Seq<char>> {
        attr_lookup(self.attributes@, ns, name)
    }

    pub open spec fn has_id(&self) -> bool {
        self.lookup(default_ns(), id_name()) is Some
    }

    /// Whether an attribute with the given namespace key and name exists.
    pub fn has_attribute(&self, namespace: &str, attribute: &str) -> (r: bool)
        ensures
            r == self.lookup(namespace@, attribute@) is Some,
    {
        self.get_attribute(namespace, attribute).is_some()
    }

    /// The value of the attribute with the given namespace key and name.
    pub fn get_attribute(&self, namespace: &str, attribute: &str) -> (r: Option<String>)
        ensures
            r is Some == self.lookup(namespace@, attribute@) is Some,
            r matches Some(v) ==> self.lookup(namespace@, attribute@) == Some(v@),
    {
        lookup_attribute(&self.attributes, namespace, attribute)
    }
}

/// The value of the last entry of `attrs` with the given key.
pub fn lookup_attribute(attrs: &Vec<Attribute>, namespace: &str, attribute: &str) -> (r: Option<String>)
    ensures
        r is Some == attr_lookup(attrs@, namespace@, attribute@) is Some,
        r matches Some(v) ==> attr_lookup(attrs@, namespace@, attribute@) == Some(v@),
{
    let ns = namespace.to_owned();
    let name = attribute.to_owned();
    let mut found: Option<String> = None;
    let mut i: usize = 0;
    while i < attrs.len()
        invariant
            i <= attrs@.len(),
            ns@ == namespace@,
            name@ == attribute@,
            found is Some == attr_lookup(attrs@.take(i as int), ns@, name@) is Some,
            found matches Some(v) ==> attr_lookup(attrs@.take(i as int), ns@, name@) == Some(v@),
        decreases attrs@.len() - i,
    {
        let a = &attrs[i];
        assert(attrs@.take(i + 1).drop_last() =~= attrs@.take(i as int));
        if a.namespace == ns && a.name == name {
            found = Some(a.value.clone());
        }
        i = i + 1;
    }
    assert(attrs@.take(i as int) =~= attrs@);
    found
}

/// Node `i` of `nodes` is linked consistently with its parent and children.
pub open spec fn node_linked(nodes: Seq<XmlNode>, i: int) -> bool {
    let n = nodes[i];
    &&& n.children@.no_duplicates()
    &&& forall|k: int| 0 <= k < n.children@.len() ==> {
        let c = #[trigger] n.children@[k].index as int;
        &&& i < c < nodes.len()
        &&& nodes[c].parent == Some(NodeAsync { index: i as usize })
    }
    &&& match n.parent {
        Some(p) => p.index < i && nodes[p.index as int].children@.contains(
            NodeAsync { index: i as usize },
        ),
        None => true,
    }
}

/// The leaves under node `n`, last child first: the order in which a
/// depth-first descent with an explicit stack meets them.
pub open spec fn leaves(nodes: Seq<XmlNode>, n: int) -> Seq<NodeAsync>
    decreases nodes.len() - n, nodes[n].children@.len() + 1,
{
    if !(0 <= n < nodes.len()) {
        seq![]
    } else if nodes[n].children@.len() == 0 {
        seq![NodeAsync { index: n as usize }]
    } else {
        leaves_from(nodes, n, nodes[n].children@.len() as int)
    }
}

/// The leaves under the first `k` children of node `n`, child `k - 1` first.
pub open spec fn leaves_from(nodes: Seq<XmlNode>, n: int, k: int) -> Seq<NodeAsync>
    decreases nodes.len() - n, k,
{
    if !(0 <= n < nodes.len()) || k <= 0 || k > nodes[n].children@.len() {
        seq![]
    } else {
        let c = nodes[n].children@[k - 1].index as int;
        let first = if n < c < nodes.len() {
            leaves(nodes, c)
        } else {
            seq![]
        };
        first + leaves_from(nodes, n, k - 1)
    }
}

/// The nodes met walking from `n` up through parent links to its root.
pub open spec fn path_up(nodes: Seq<XmlNode>, n: int) -> Seq<NodeAsync>
    decreases n,
{
    if !(0 <= n < nodes.len()) {
        seq![]
    } else {
        match nodes[n].parent {
            Some(p) => if 0 <= p.index < n {
                seq![NodeAsync { index: n as usize }] + path_up(nodes, p.index as int)
            } else {
                seq![NodeAsync { index: n as usize }]
            },
            None => seq![NodeAsync { index: n as usize }],
        }
    }
}

/// The element names from the root down to `n`, joined by `" > "`.
pub open spec fn path_text(nodes: Seq<XmlNode>, n: int) -> Seq<char>
    decreases n,
{
    if !(0 <= n < nodes.len()) {
        seq![]
    } else {
        match nodes[n].parent {
            Some(p) => if 0 <= p.index < n {
                path_text(nodes, p.index as int) + " > "@ + nodes[n].name@
            } else {
                nodes[n].name@
            },
            None => nodes[n].name@,
        }
    }
}

impl View for Document {
    type V = Seq<XmlNode>;

    open spec fn view(&self) -> Seq<XmlNode> {
        self.nodes@
    }
}

impl Document {
    /// The arena is a well-linked forest and every node carries an identity.
    pub open spec fn wf(&self) -> bool {
        &&& self@.len() <= usize::MAX
        &&& forall|i: int| 0 <= i < self@.len() ==> {
            &&& node_linked(self@, i)
            &&& (#[trigger] self@[i]).has_id()
        }
    }

    pub open spec fn valid(&self, h: NodeAsync) -> bool {
        h.index < self@.len()
    }

    pub open spec fn is_root(&self, i: int) -> bool {
        self@[i].parent is None
    }

    /// Appends the leaves under `n` to `out`.
    fn collect_leaves(&self, n: usize, out: &mut Vec<NodeAsync>)
        requires
            self.wf(),
            n < self@.len(),
            forall|j: int| 0 <= j < old(out)@.len() ==> self.valid(#[trigger] old(out)@[j]),
        ensures
            final(out)@ == old(out)@ + leaves(self@, n as int),
            forall|j: int| 0 <= j < final(out)@.len() ==> self.valid(#[trigger] final(out)@[j]),
        decreases self@.len() - n,
    {
        let node = &self.nodes[n];
        let count = node.children.len();
        if count == 0 {
            out.push(NodeAsync { index: n });
        } else {
            proof {
                assert(node_linked(self@, n as int));
            }
            let mut k: usize = count;
            while k > 0
                invariant
                    self.wf(),
                    n < self@.len(),
                    node == &self@[n as int],
                    count == node.children@.len(),
                    node_linked(self@, n as int),
                    k <= count,
                    forall|j: int| 0 <= j < out@.len() ==> self.valid(#[trigger] out@[j]),
                    old(out)@ + leaves_from(self@, n as int, count as int) == out@ + leaves_from(
                        self@,
                        n as int,
                        k as int,
                    ),
                decreases k,
            {
                let c = node.children[k - 1].index;
                assert(n < c < self@.len());
                let ghost before = out@;
                self.collect_leaves(c, out);
                assert(leaves_from(self@, n as int, k as int) == leaves(self@, c as int)
                    + leaves_from(self@, n as int, k - 1));
                assert(old(out)@ + leaves_from(self@, n as int, count as int) =~= out@
                    + leaves_from(self@, n as int, k - 1));
                k = k - 1;
            }
            assert(out@ + leaves_from(self@, n as int, 0) =~= out@);
        }
    }

    /// The names from the root down to `n`, joined by `" > "`.
    fn path_string(&self, n: usize) -> (r: String)
        requires
            self.wf(),
            n < self@.len(),
        ensures
            r@ == path_text(self@, n as int),
        decreases n,
    {
        let node = &self.nodes[n];
        proof {
            assert(node_linked(self@, n as int));
        }
        match node.parent {
            Some(p) => {
                let mut s = self.path_string(p.index);
                s.append(" > ");
                s.append(node.name.as_str());
                s
            },
            None => node.name.clone(),
        }
    }

    pub fn new() -> (r: Document)
        ensures
            r@.len() == 0,
            r.wf(),
    {
        Document { nodes: Vec::new() }
    }

    pub fn len(&self) -> (r: usize)
        ensures
            r == self@.len(),
    {
        self.nodes.len()
    }

    pub fn node(&self, h: NodeAsync) -> (r: &XmlNode)
        requires
            self.valid(h),
        ensures
            *r == self@[h.index as int],
    {
        &self.nodes[h.index]
    }

    /// Appends `node` to the arena, as a root or as the last child of `parent`.
    pub fn push_node(&mut self, node: XmlNode, parent: Option<NodeAsync>) -> (r: NodeAsync)
        requires
            old(self).wf(),
            node.children@.len() == 0,
            node.parent == parent,
            node.has_id(),
            parent matches Some(p) ==> old(self).valid(p),
        ensures
            final(self).wf(),
            r.index == old(self)@.len(),
            final(self)@.len() == old(self)@.len() + 1,
            final(self)@.last() == node,
            forall|i: int| 0 <= i < old(self)@.len() && (parent matches Some(p) ==> i != p.index)
                ==> #[trigger] final(self)@[i] == old(self)@[i],
            forall|i: int| 0 <= i < old(self)@.len() ==> (#[trigger] final(self)@[i]).attributes
                == old(self)@[i].attributes,
            parent matches Some(p) ==> {
                let o = old(self)@[p.index as int];
                let f = final(self)@[p.index as int];
                &&& f.children@ == o.children@.push(r)
                &&& f.prefix == o.prefix
                &&& f.namespace == o.namespace
                &&& f.namespaces == o.namespaces
                &&& f.name == o.name
                &&& f.attributes == o.attributes
                &&& f.parent == o.parent
            },
    {
        let n = self.nodes.len();
        let h = NodeAsync { index: n };
        self.nodes.push(node);
        let _ = self.nodes.len();
        match parent {
            Some(p) => {
                self.nodes[p.index].children.push(h);
            },
            None => {},
        }
        proof {
            let o = old(self)@;
            let f = self@;
            assert forall|i: int| 0 <= i < f.len() implies node_linked(f, i) && (
            #[trigger] f[i]).has_id() by {
                if i < o.len() {
                    assert(node_linked(o, i));
                    assert(o[i].has_id());
                    if let Some(p) = parent {
                        if i == p.index {
                            assert(!o[i].children@.contains(h)) by {
                                if o[i].children@.contains(h) {
                                    let k = choose|k: int|
                                        0 <= k < o[i].children@.len() && o[i].children@[k] == h;
                                    assert(o[i].children@[k].index < o.len());
                                }
                            }
                            assert forall|k: int| 0 <= k < f[i].children@.len() implies {
                                let c = #[trigger] f[i].children@[k].index as int;
                                &&& i < c < f.len()
                                &&& f[c].parent == Some(NodeAsync { index: i as usize })
                            } by {
                                if k < o[i].children@.len() {
                                    assert(f[i].children@[k] == o[i].children@[k]);
                                }
                            }
                        }
                    }
                    if let Some(q) = f[i].parent {
                        if let Some(p) = parent {
                            if q.index == p.index {
                                assert(f[q.index as int].children@ == o[q.index as int].children@.push(h));
                                assert(o[q.index as int].children@.contains(NodeAsync { index: i as usize }));
                                let k = choose|k: int| 0 <= k < o[q.index as int].children@.len()
                                    && o[q.index as int].children@[k] == NodeAsync { index: i as usize };
                                assert(f[q.index as int].children@[k] == NodeAsync { index: i as usize });
                            }
                        }
                    }
                } else {
                    if let Some(p) = parent {
                        assert(f[p.index as int].children@.last() == h);
                    }
                }
            }
        }
        h
    }
}

impl NodeAsync {
    /// Every leaf under this node, found by depth-first descent.
    pub fn get_leaves(&self, doc: &Document) -> (r: Vec<NodeAsync>)
        requires
            doc.wf(),
            doc.valid(*self),
        ensures
            r@ == leaves(doc@, self.index as int),
            forall|j: int| 0 <= j < r@.len() ==> doc.valid(#[trigger] r@[j]),
    {
        let mut out: Vec<NodeAsync> = Vec::new();
        doc.collect_leaves(self.index, &mut out);
        assert(out@ =~= leaves(doc@, self.index as int));
        out
    }

    /// The element names from the root down to this node, joined by `" > "`.
    pub fn to_string(&self, doc: &Document) -> (r: String)
        requires
            doc.wf(),
            doc.valid(*self),
        ensures
            r@ == path_text(doc@, self.index as int),
    {
        doc.path_string(self.index)
    }
}

/// Following parent links from any node ends at a root: the walk visits each
/// node at most once, every step goes to the node's parent, and the number of
/// nodes visited is at most the node's position in the arena plus one.
pub proof fn lemma_parent_walk_terminates(doc: &Document, n: int)
    requires
        doc.wf(),
        0 <= n < doc@.len(),
    ensures
        ({
            let w = path_up(doc@, n);
            &&& w.len() >= 1
            &&& w.len() <= n + 1
            &&& w[0].index == n
            &&& w.no_duplicates()
            &&& forall|k: int| 0 <= k < w.len() ==> (#[trigger] w[k]).index < doc@.len()
            &&& forall|k: int| 0 <= k < w.len() - 1 ==> doc@[(#[trigger] w[k]).index as int].parent
                == Some(w[k + 1])
            &&& doc.is_root(w.last().index as int)
            &&& forall|k: int, j: int| 0 <= k < j < w.len() ==> (#[trigger] w[j]).index < (#[trigger] w[k]).index
        }),
    decreases n,
{
    assert(node_linked(doc@, n));
    let w = path_up(doc@, n);
    match doc@[n].parent {
        Some(p) => {
            lemma_parent_walk_terminates(doc, p.index as int);
            let v = path_up(doc@, p.index as int);
            assert(w == seq![NodeAsync { index: n as usize }] + v);
            assert forall|k: int, j: int| 0 <= k < j < w.len() implies (#[trigger] w[j]).index < (
            #[trigger] w[k]).index by {
                if k > 0 {
                    assert(w[k] == v[k - 1]);
                    assert(w[j] == v[j - 1]);
                } else {
                    assert(w[j] == v[j - 1]);
                    if j > 1 {
                        assert(v[j - 1].index < v[0].index);
                    }
                }
            }
            assert forall|k: int, j: int| 0 <= k < w.len() && 0 <= j < w.len() && k != j
                implies w[k] != w[j] by {
                if k < j {
                    assert(w[j].index < w[k].index);
                } else {
                    assert(w[k].index < w[j].index);
                }
            }
            assert forall|k: int| 0 <= k < w.len() - 1 implies doc@[(#[trigger] w[k]).index as int].parent
                == Some(w[k + 1]) by {
                if k > 0 {
                    assert(w[k] == v[k - 1]);
                    assert(w[k + 1] == v[k]);
                } else {
                    assert(w[1] == v[0]);
                    assert(v[0].index == p.index);
                }
            }
            assert forall|k: int| 0 <= k < w.len() implies (#[trigger] w[k]).index < doc@.len() by {
                if k > 0 {
                    assert(w[k] == v[k - 1]);
                }
            }
            assert(w.last() == v.last());
            assert(w.len() <= n + 1);
            assert(w.no_duplicates());
        },
        None => {
            assert(w == seq![NodeAsync { index: n as usize }]);
        },
    }
}

} // verus!
