//! Selectors: builder-composed match criteria with an optional ancestor
//! constraint, and the engine that applies them to a subtree.

use vstd::prelude::*;
use crate::construct::{key_name, key_namespace, split_key};
use crate::xml::{default_ns, id_name, leaves, path_up, Document, NodeAsync, XmlNode};

verus! {

/// The whitespace that separates class names.
pub open spec fn is_space(c: char) -> bool {
    c == ' ' || c == '\t' || c == '\n' || c == '\r' || c == '\x0C'
}

/// `t` stands in `s` at position `i`, delimited by whitespace or the ends of `s`.
pub open spec fn token_at(s: Seq<char>, t: Seq<char>, i: int) -> bool {
    &&& 0 <= i
    &&& i + t.len() <= s.len()
    &&& s.subrange(i, i + t.len()) == t
    &&& (i == 0 || is_space(s[i - 1]))
    &&& (i + t.len() == s.len() || is_space(s[i + t.len()]))
}

/// `t` is one of the whitespace-separated tokens of `s`.
pub open spec fn has_token(s: Seq<char>, t: Seq<char>) -> bool {
    &&& t.len() > 0
    &&& forall|j: int| 0 <= j < t.len() ==> !is_space(#[trigger] t[j])
    &&& exists|i: int| token_at(s, t, i)
}

fn is_space_char(c: char) -> (r: bool)
    ensures
        r == is_space(c),
{
    c == ' ' || c == '\t' || c == '\n' || c == '\r' || c == '\x0C'
}

fn token_at_exec(s: &str, t: &str, i: usize) -> (r: bool)
    requires
        i + t@.len() <= s@.len(),
    ensures
        r == token_at(s@, t@, i as int),
{
    let slen = s.unicode_len();
    let tlen = t.unicode_len();
    if i > 0 && !is_space_char(s.get_char(i - 1)) {
        return false;
    }
    if i + tlen < slen && !is_space_char(s.get_char(i + tlen)) {
        return false;
    }
    let mut j: usize = 0;
    while j < tlen
        invariant
            j <= tlen,
            tlen == t@.len(),
            slen == s@.len(),
            i + tlen <= slen,
            forall|k: int| 0 <= k < j ==> s@[i + k] == t@[k],
        decreases tlen - j,
    {
        if s.get_char(i + j) != t.get_char(j) {
            assert(s@.subrange(i as int, i + tlen)[j as int] != t@[j as int]);
            return false;
        }
        j = j + 1;
    }
    assert(s@.subrange(i as int, i + tlen) =~= t@);
    true
}

/// Whether `t` is one of the whitespace-separated tokens of `s`.
pub fn contains_token(s: &str, t: &str) -> (r: bool)
    ensures
        r == has_token(s@, t@),
{
    let slen = s.unicode_len();
    let tlen = t.unicode_len();
    if tlen == 0 || tlen > slen {
        return false;
    }
    let mut j: usize = 0;
    while j < tlen
        invariant
            j <= tlen,
            tlen == t@.len(),
            forall|k: int| 0 <= k < j ==> !is_space(#[trigger] t@[k]),
        decreases tlen - j,
    {
        if is_space_char(t.get_char(j)) {
            return false;
        }
        j = j + 1;
    }
    let mut i: usize = 0;
    while i <= slen - tlen
        invariant
            forall|k: int| 0 <= k < tlen ==> !is_space(#[trigger] t@[k]),
            tlen == t@.len(),
            slen == s@.len(),
            0 < tlen <= slen,
            i <= slen,
            forall|k: int| 0 <= k < i ==> !token_at(s@, t@, k),
        decreases slen - i,
    {
        if token_at_exec(s, t, i) {
            assert(token_at(s@, t@, i as int));
            return true;
        }
        i = i + 1;
    }
    assert forall|k: int| !token_at(s@, t@, k) by {
        if 0 <= k < i {
        }
    }
    false
}

pub open spec fn class_name() -> Seq<char> {
    "class"@
}

/// One selector level.
#[derive(Debug)]
pub struct NodeSelector {
    /// Required tag name.
    pub tag_name: Option<String>,
    /// Required identity, compared with the `("Default", "id")` attribute.
    pub id: Option<String>,
    /// Classes that must all be tokens of the `class` attribute.
    pub classes: Vec<String>,
    /// Attribute keys that must be present, each with the value it must
    /// have, if one is given.
    pub attributes: Vec<(String, Option<String>)>,
    /// The level the node's parent must match.
    pub parent: Option<Box<NodeSelector>>,
    /// Matches every node, whatever else is recorded.
    pub is_universal: bool,
    /// Named variants: recorded, with no effect on matching yet.
    pub pseudoclasses: Vec<String>,
    /// Nodes this level has already been tested on during the current `apply`.
    pub visited: Vec<NodeAsync>,
}

/// The node meets attribute requirement `a`.
pub open spec fn attribute_ok(n: XmlNode, a: (String, Option<String>)) -> bool {
    match n.lookup(key_namespace(a.0@), key_name(a.0@)) {
        Some(v) => a.1 matches Some(e) ==> v == e@,
        None => false,
    }
}

/// The node meets the criteria of this level alone.
pub open spec fn level_accepts(sel: NodeSelector, n: XmlNode) -> bool {
    &&& sel.tag_name matches Some(t) ==> n.name@ == t@
    &&& sel.id matches Some(v) ==> n.lookup(default_ns(), id_name()) == Some(v@)
    &&& sel.classes@.len() > 0 ==> match n.lookup(default_ns(), class_name()) {
        Some(cv) => forall|k: int|
            0 <= k < sel.classes@.len() ==> has_token(cv, (#[trigger] sel.classes@[k])@),
        None => false,
    }
    &&& forall|k: int|
        0 <= k < sel.attributes@.len() ==> attribute_ok(n, #[trigger] sel.attributes@[k])
}

/// Node `i` matches `sel`: it meets the level's criteria and, where the
/// level has an ancestor constraint, it has a parent that matches that.
pub open spec fn chain_matches(sel: NodeSelector, nodes: Seq<XmlNode>, i: int) -> bool
    decreases sel,
{
    if sel.is_universal {
        true
    } else {
        &&& level_accepts(sel, nodes[i])
        &&& match sel.parent {
            None => true,
            Some(p) => match nodes[i].parent {
                Some(q) => chain_matches(*p, nodes, q.index as int),
                None => false,
            },
        }
    }
}

/// The walk of `apply`: for each leaf in turn, the path from it up to its root.
pub open spec fn walk(nodes: Seq<XmlNode>, ls: Seq<NodeAsync>) -> Seq<NodeAsync>
    decreases ls.len(),
{
    if ls.len() == 0 {
        seq![]
    } else {
        walk(nodes, ls.drop_last()) + path_up(nodes, ls.last().index as int)
    }
}

/// The nodes of walk `w` that `sel` reports: each match, and for a
/// selector other than the universal one only where it is met first.
pub open spec fn select(sel: NodeSelector, nodes: Seq<XmlNode>, w: Seq<NodeAsync>) -> Seq<NodeAsync>
    decreases w.len(),
{
    if w.len() == 0 {
        seq![]
    } else {
        let p = w.drop_last();
        let x = w.last();
        select(sel, nodes, p) + if chain_matches(sel, nodes, x.index as int) && (sel.is_universal
            || !p.contains(x)) {
            seq![x]
        } else {
            seq![]
        }
    }
}

/// `a` and `b` have the same criteria at every level; only what they
/// recorded as visited may differ.
pub open spec fn same_levels(a: NodeSelector, b: NodeSelector) -> bool
    decreases a,
{
    &&& a.tag_name == b.tag_name
    &&& a.id == b.id
    &&& a.classes == b.classes
    &&& a.attributes == b.attributes
    &&& a.is_universal == b.is_universal
    &&& a.pseudoclasses == b.pseudoclasses
    &&& match a.parent {
        Some(p) => match b.parent {
            Some(q) => same_levels(*p, *q),
            None => false,
        },
        None => b.parent is None,
    }
}

/// No level of `sel` holds a visited node.
pub open spec fn all_clear(sel: NodeSelector) -> bool
    decreases sel,
{
    &&& sel.visited@.len() == 0
    &&& match sel.parent {
        Some(p) => all_clear(*p),
        None => true,
    }
}

/// Matching reads the criteria alone, never the visited nodes.
pub proof fn lemma_matching_ignores_visited(a: NodeSelector, b: NodeSelector, nodes: Seq<XmlNode>, i: int)
    requires
        same_levels(a, b),
    ensures
        chain_matches(a, nodes, i) == chain_matches(b, nodes, i),
    decreases a,
{
    if !a.is_universal {
        assert(level_accepts(a, nodes[i]) == level_accepts(b, nodes[i]));
        match a.parent {
            Some(p) => {
                match nodes[i].parent {
                    Some(q) => {
                        lemma_matching_ignores_visited(*p, *b.parent->Some_0, nodes, q.index as int);
                    },
                    None => {},
                }
            },
            None => {},
        }
    }
}

/// `b` is `a` with possibly other visited nodes at its own level.
pub open spec fn same_but_visited(a: NodeSelector, b: NodeSelector) -> bool {
    &&& a.tag_name == b.tag_name
    &&& a.id == b.id
    &&& a.classes == b.classes
    &&& a.attributes == b.attributes
    &&& a.parent == b.parent
    &&& a.is_universal == b.is_universal
    &&& a.pseudoclasses == b.pseudoclasses
}

proof fn lemma_push_contains(s: Seq<NodeAsync>, v: NodeAsync, x: NodeAsync)
    ensures
        s.push(v).contains(x) <==> (x == v || s.contains(x)),
{
    if x == v {
        assert(s.push(v)[s.len() as int] == v);
    }
    if s.contains(x) {
        let k = choose|k: int| 0 <= k < s.len() && s[k] == x;
        assert(s.push(v)[k] == x);
    }
    if s.push(v).contains(x) && x != v {
        let k = choose|k: int| 0 <= k < s.push(v).len() && s.push(v)[k] == x;
        assert(s[k] == x);
    }
}

proof fn lemma_select_ignores_visited(a: NodeSelector, b: NodeSelector, nodes: Seq<XmlNode>, w: Seq<NodeAsync>)
    requires
        same_levels(a, b),
    ensures
        select(a, nodes, w) == select(b, nodes, w),
    decreases w.len(),
{
    if w.len() > 0 {
        lemma_select_ignores_visited(a, b, nodes, w.drop_last());
        lemma_matching_ignores_visited(a, b, nodes, w.last().index as int);
    }
}

impl NodeSelector {
    /// A selector that matches every node.
    pub fn any() -> (r: NodeSelector)
        ensures
            r.is_universal,
            r.tag_name is None,
            r.id is None,
            r.classes@.len() == 0,
            r.attributes@.len() == 0,
            r.parent is None,
            r.pseudoclasses@.len() == 0,
            r.visited@.len() == 0,
    {
        NodeSelector {
            tag_name: None,
            id: None,
            classes: Vec::new(),
            attributes: Vec::new(),
            parent: None,
            is_universal: true,
            pseudoclasses: Vec::new(),
            visited: Vec::new(),
        }
    }

    /// A selector with no criteria yet.
    pub fn new() -> (r: NodeSelector)
        ensures
            !r.is_universal,
            r.tag_name is None,
            r.id is None,
            r.classes@.len() == 0,
            r.attributes@.len() == 0,
            r.parent is None,
            r.pseudoclasses@.len() == 0,
            r.visited@.len() == 0,
    {
        NodeSelector {
            tag_name: None,
            id: None,
            classes: Vec::new(),
            attributes: Vec::new(),
            parent: None,
            is_universal: false,
            pseudoclasses: Vec::new(),
            visited: Vec::new(),
        }
    }

    /// Requires the tag name `tag_name`.
    pub fn named(self, tag_name: String) -> (r: NodeSelector)
        ensures
            r == (NodeSelector { tag_name: Some(tag_name), ..self }),
    {
        NodeSelector { tag_name: Some(tag_name), ..self }
    }

    /// Requires the identity `id`.
    pub fn is(self, id: String) -> (r: NodeSelector)
        ensures
            r == (NodeSelector { id: Some(id), ..self }),
    {
        NodeSelector { id: Some(id), ..self }
    }

    /// Requires every one of `classes` among the node's classes.
    pub fn classes(self, classes: Vec<String>) -> (r: NodeSelector)
        ensures
            r == (NodeSelector { classes: classes, ..self }),
    {
        NodeSelector { classes, ..self }
    }

    /// Requires the attribute `attribute`, with the value `value` where one
    /// is given. A key of the form `prefix:name` names a namespace key.
    pub fn with(self, attribute: String, value: Option<String>) -> (r: NodeSelector)
        ensures
            r.attributes@ == self.attributes@.push((attribute, value)),
            r.tag_name == self.tag_name,
            r.id == self.id,
            r.classes == self.classes,
            r.parent == self.parent,
            r.is_universal == self.is_universal,
            r.pseudoclasses == self.pseudoclasses,
            r.visited == self.visited,
    {
        let mut s = self;
        s.attributes.push((attribute, value));
        s
    }

    /// A new level whose nodes must have a parent that matches this one.
    /// Criteria added to the result constrain the node itself.
    pub fn child(self) -> (r: NodeSelector)
        ensures
            !r.is_universal,
            r.tag_name is None,
            r.id is None,
            r.classes@.len() == 0,
            r.attributes@.len() == 0,
            r.parent == Some(Box::new(self)),
            r.pseudoclasses@.len() == 0,
            r.visited@.len() == 0,
    {
        let mut c = NodeSelector::new();
        c.parent = Some(Box::new(self));
        c
    }

    /// Records the named variant `pseudoclass`; variants do not yet take
    /// part in matching.
    pub fn variant(self, pseudoclass: String) -> (r: NodeSelector)
        ensures
            r.pseudoclasses@ == self.pseudoclasses@.push(pseudoclass),
            r.tag_name == self.tag_name,
            r.id == self.id,
            r.classes == self.classes,
            r.attributes == self.attributes,
            r.parent == self.parent,
            r.is_universal == self.is_universal,
            r.visited == self.visited,
    {
        let mut s = self;
        s.pseudoclasses.push(pseudoclass);
        s
    }

    /// Whether `node` meets the criteria of this level alone.
    fn level_accepts_exec(&self, node: &XmlNode) -> (r: bool)
        ensures
            r == level_accepts(*self, *node),
    {
        match &self.tag_name {
            Some(t) => {
                if !(*t == node.name) {
                    return false;
                }
            },
            None => {},
        }
        match &self.id {
            Some(v) => {
                match node.get_attribute("Default", "id") {
                    Some(x) => {
                        if !(x == *v) {
                            return false;
                        }
                    },
                    None => {
                        return false;
                    },
                }
            },
            None => {},
        }
        if self.classes.len() > 0 {
            match node.get_attribute("Default", "class") {
                None => {
                    return false;
                },
                Some(cv) => {
                    let mut k: usize = 0;
                    while k < self.classes.len()
                        invariant
                            k <= self.classes@.len(),
                            node.lookup(default_ns(), class_name()) == Some(cv@),
                            forall|j: int|
                                0 <= j < k ==> has_token(cv@, (#[trigger] self.classes@[j])@),
                        decreases self.classes@.len() - k,
                    {
                        if !contains_token(cv.as_str(), self.classes[k].as_str()) {
                            return false;
                        }
                        k = k + 1;
                    }
                },
            }
        }
        let mut k: usize = 0;
        while k < self.attributes.len()
            invariant
                k <= self.attributes@.len(),
                forall|j: int| 0 <= j < k ==> attribute_ok(*node, #[trigger] self.attributes@[j]),
            decreases self.attributes@.len() - k,
        {
            let (ns, local) = split_key(self.attributes[k].0.as_str());
            match node.get_attribute(ns.as_str(), local.as_str()) {
                None => {
                    return false;
                },
                Some(v) => {
                    match &self.attributes[k].1 {
                        Some(e) => {
                            if !(v == *e) {
                                return false;
                            }
                        },
                        None => {},
                    }
                },
            }
            k = k + 1;
        }
        true
    }

    /// Whether node `h` matches this selector, ancestor levels included.
    fn matches_chain(&self, doc: &Document, h: NodeAsync) -> (r: bool)
        requires
            doc.wf(),
            doc.valid(h),
        ensures
            r == chain_matches(*self, doc@, h.index as int),
        decreases *self,
    {
        if self.is_universal {
            return true;
        }
        let node = doc.node(h);
        proof {
            assert(crate::xml::node_linked(doc@, h.index as int));
        }
        if !self.level_accepts_exec(node) {
            return false;
        }
        match &self.parent {
            None => true,
            Some(p) => match node.parent {
                Some(q) => p.matches_chain(doc, q),
                None => false,
            },
        }
    }

    fn has_visited(&self, h: NodeAsync) -> (r: bool)
        ensures
            r == self.visited@.contains(h),
    {
        let mut i: usize = 0;
        while i < self.visited.len()
            invariant
                i <= self.visited@.len(),
                forall|j: int| 0 <= j < i ==> self.visited@[j] != h,
            decreases self.visited@.len() - i,
        {
            if self.visited[i] == h {
                return true;
            }
            i = i + 1;
        }
        false
    }

    /// Tests one node. The universal selector accepts it outright; any other
    /// refuses a node it has already tested since it was last cleared, and
    /// otherwise records the node and tests it against every level. Only the
    /// node itself is recorded: its ancestors are tested against the
    /// ancestor levels afresh each time, since one ancestor may serve several
    /// matching descendants.
    pub fn match_immediate(&mut self, doc: &Document, node_handle: NodeAsync) -> (r: bool)
        requires
            doc.wf(),
            doc.valid(node_handle),
        ensures
            same_but_visited(*old(self), *final(self)),
            old(self).is_universal ==> r && final(self).visited == old(self).visited,
            !old(self).is_universal ==> {
                &&& r == (!old(self).visited@.contains(node_handle) && chain_matches(
                    *old(self),
                    doc@,
                    node_handle.index as int,
                ))
                &&& final(self).visited@ == if old(self).visited@.contains(node_handle) {
                    old(self).visited@
                } else {
                    old(self).visited@.push(node_handle)
                }
            },
    {
        if self.is_universal {
            return true;
        }
        if self.has_visited(node_handle) {
            return false;
        }
        let r = self.matches_chain(doc, node_handle);
        self.visited.push(node_handle);
        r
    }

    /// Forgets the visited nodes at every level.
    pub fn clear_visited(&mut self)
        ensures
            same_levels(*old(self), *final(self)),
            all_clear(*final(self)),
        decreases *old(self),
    {
        self.visited.clear();
        match self.parent.take() {
            Some(mut p) => {
                (&mut *p).clear_visited();
                self.parent = Some(p);
            },
            None => {},
        }
    }

    /// Applies the selector to the subtree at `node`: for each leaf under it,
    /// depth first, every node on the path from the leaf up to its root is
    /// tested, and the matches are reported in that order.
    pub fn apply(&mut self, doc: &Document, node: NodeAsync) -> (r: Vec<NodeAsync>)
        requires
            doc.wf(),
            doc.valid(node),
        ensures
            r@ == select(*old(self), doc@, walk(doc@, leaves(doc@, node.index as int))),
            same_levels(*old(self), *final(self)),
    {
        self.clear_visited();
        proof {
            lemma_select_ignores_visited(*old(self), *self, doc@, walk(doc@, leaves(doc@, node.index as int)));
        }
        let ghost sel = *self;
        let ls = node.get_leaves(doc);
        let mut results: Vec<NodeAsync> = Vec::new();
        let mut i: usize = 0;
        while i < ls.len()
            invariant
                doc.wf(),
                ls@ == leaves(doc@, node.index as int),
                i <= ls@.len(),
                same_but_visited(sel, *self),
                same_levels(*old(self), sel),
                forall|j: int| 0 <= j < ls@.len() ==> doc.valid(#[trigger] ls@[j]),
                results@ == select(sel, doc@, walk(doc@, ls@.take(i as int))),
                !sel.is_universal ==> forall|x: NodeAsync|
                    self.visited@.contains(x) <==> walk(doc@, ls@.take(i as int)).contains(x),
            decreases ls@.len() - i,
        {
            let leaf = ls[i];
            let ghost before = walk(doc@, ls@.take(i as int));
            let ghost consumed: Seq<NodeAsync> = seq![];
            let mut cur: Option<NodeAsync> = Some(leaf);
            while cur.is_some()
                invariant
                    doc.wf(),
                    doc.valid(leaf),
                    same_but_visited(sel, *self),
                    cur matches Some(h) ==> doc.valid(h) && consumed + path_up(doc@, h.index as int)
                        == path_up(doc@, leaf.index as int),
                    cur is None ==> consumed == path_up(doc@, leaf.index as int),
                    results@ == select(sel, doc@, before + consumed),
                    !sel.is_universal ==> forall|x: NodeAsync|
                        self.visited@.contains(x) <==> (before + consumed).contains(x),
                decreases match cur {
                    Some(h) => h.index + 1,
                    None => 0,
                },
            {
                let h = cur.unwrap();
                let ghost prefix = before + consumed;
                proof {
                    assert(crate::xml::node_linked(doc@, h.index as int));
                    assert((prefix.push(h)).drop_last() =~= prefix);
                    assert(before + consumed.push(h) =~= prefix.push(h));
                    if !sel.is_universal {
                        assert(self.visited@.contains(h) == prefix.contains(h));
                    }
                }
                let ghost visited_before = self.visited@;
                if self.match_immediate(doc, h) {
                    results.push(h);
                }
                proof {
                    consumed = consumed.push(h);
                    assert(before + consumed =~= prefix.push(h));
                    if !sel.is_universal {
                        assert forall|x: NodeAsync| self.visited@.contains(x) <==> (before
                            + consumed).contains(x) by {
                            lemma_push_contains(prefix, h, x);
                            lemma_push_contains(visited_before, h, x);
                        }
                    }
                }
                let next = doc.node(h).parent;
                proof {
                    let pu = path_up(doc@, h.index as int);
                    match next {
                        Some(q) => {
                            assert(pu == seq![h] + path_up(doc@, q.index as int));
                            assert(consumed + path_up(doc@, q.index as int) =~= (consumed.drop_last()
                                + pu));
                        },
                        None => {
                            assert(pu == seq![h]);
                            assert(consumed =~= consumed.drop_last() + pu);
                        },
                    }
                }
                cur = next;
            }
            proof {
                assert(ls@.take(i + 1).drop_last() =~= ls@.take(i as int));
                assert(walk(doc@, ls@.take(i + 1)) == before + path_up(doc@, leaf.index as int));
            }
            i = i + 1;
        }
        assert(ls@.take(i as int) =~= ls@);
        results
    }

    /// The tag names of the levels, outermost ancestor first, joined by `" > "`.
    pub fn to_string(&self) -> (r: String)
        ensures
            r@ == selector_text(*self),
        decreases *self,
    {
        let own = match &self.tag_name {
            Some(t) => t.clone(),
            None => String::new(),
        };
        match &self.parent {
            Some(p) => {
                let mut s = p.to_string();
                s.append(" > ");
                s.append(own.as_str());
                s
            },
            None => own,
        }
    }
}

impl Default for NodeSelector {
    fn default() -> (r: NodeSelector)
        ensures
            !r.is_universal,
            r.tag_name is None,
            r.id is None,
            r.classes@.len() == 0,
            r.attributes@.len() == 0,
            r.parent is None,
            r.pseudoclasses@.len() == 0,
            r.visited@.len() == 0,
    {
        NodeSelector::new()
    }
}

/// The text of a selector: the tag names of its levels, outermost first,
/// joined by `" > "`.
pub open spec fn selector_text(sel: NodeSelector) -> Seq<char>
    decreases sel,
{
    let own = match sel.tag_name {
        Some(t) => t@,
        None => Seq::<char>::empty(),
    };
    match sel.parent {
        Some(p) => selector_text(*p) + " > "@ + own,
        None => own,
    }
}

/// The universal selector reports every node of the walk, in walk order:
/// each node on each leaf-to-root path, so its distinct results are exactly
/// the nodes on those paths.
pub proof fn lemma_universal_reports_walk(sel: NodeSelector, nodes: Seq<XmlNode>, w: Seq<NodeAsync>)
    requires
        sel.is_universal,
    ensures
        select(sel, nodes, w) == w,
    decreases w.len(),
{
    if w.len() > 0 {
        lemma_universal_reports_walk(sel, nodes, w.drop_last());
        assert(w.drop_last().push(w.last()) =~= w);
    }
}

/// Any other selector reports each matching node of the walk exactly once,
/// and nothing else.
pub proof fn lemma_select_reports_matches_once(sel: NodeSelector, nodes: Seq<XmlNode>, w: Seq<NodeAsync>)
    requires
        !sel.is_universal,
    ensures
        select(sel, nodes, w).no_duplicates(),
        forall|x: NodeAsync|
            select(sel, nodes, w).contains(x) <==> (w.contains(x) && chain_matches(
                sel,
                nodes,
                x.index as int,
            )),
    decreases w.len(),
{
    if w.len() > 0 {
        let p = w.drop_last();
        let y = w.last();
        lemma_select_reports_matches_once(sel, nodes, p);
        let sp = select(sel, nodes, p);
        let s = select(sel, nodes, w);
        assert(w =~= p.push(y));
        assert forall|x: NodeAsync| s.contains(x) <==> (w.contains(x) && chain_matches(
            sel,
            nodes,
            x.index as int,
        )) by {
            lemma_push_contains(p, y, x);
            assert(sp.contains(x) <==> (p.contains(x) && chain_matches(sel, nodes, x.index as int)));
            assert(sp.contains(y) <==> (p.contains(y) && chain_matches(sel, nodes, y.index as int)));
            if chain_matches(sel, nodes, y.index as int) && !p.contains(y) {
                assert(s =~= sp.push(y));
                lemma_push_contains(sp, y, x);
            } else {
                assert(s =~= sp);
            }
        }
        if chain_matches(sel, nodes, y.index as int) && !p.contains(y) {
            assert(s =~= sp.push(y));
            assert(!sp.contains(y));
            assert forall|i: int, j: int| 0 <= i < s.len() && 0 <= j < s.len() && i != j implies s[i]
                != s[j] by {
                if i < sp.len() && j < sp.len() {
                } else if i < sp.len() {
                    assert(s[i] == sp[i]);
                } else if j < sp.len() {
                    assert(s[j] == sp[j]);
                }
            }
        } else {
            assert(s =~= sp);
        }
    }
}

/// A selector whose only criterion is one attribute requirement: with no
/// value given it matches every node carrying the attribute, whatever its
/// value; with a value given, only nodes whose attribute has exactly it.
pub proof fn lemma_attribute_presence_or_value(
    sel: NodeSelector,
    nodes: Seq<XmlNode>,
    i: int,
    attribute: String,
    value: Option<String>,
)
    requires
        !sel.is_universal,
        sel.tag_name is None,
        sel.id is None,
        sel.classes@.len() == 0,
        sel.parent is None,
        sel.attributes@ == seq![(attribute, value)],
    ensures
        chain_matches(sel, nodes, i) <==> match nodes[i].lookup(
            key_namespace(attribute@),
            key_name(attribute@),
        ) {
            Some(v) => value matches Some(e) ==> v == e@,
            None => false,
        },
{
    if attribute_ok(nodes[i], (attribute, value)) {
        assert forall|k: int| 0 <= k < sel.attributes@.len() implies attribute_ok(
            nodes[i],
            #[trigger] sel.attributes@[k],
        ) by {
            assert(sel.attributes@[k] == (attribute, value));
        }
    } else {
        assert(!attribute_ok(nodes[i], sel.attributes@[0]));
    }
}

/// A selector whose only criterion is a list of classes matches exactly the
/// nodes whose `class` attribute holds each of them among its
/// whitespace-separated tokens.
pub proof fn lemma_classes_are_tokens(sel: NodeSelector, nodes: Seq<XmlNode>, i: int)
    requires
        !sel.is_universal,
        sel.tag_name is None,
        sel.id is None,
        sel.classes@.len() > 0,
        sel.attributes@.len() == 0,
        sel.parent is None,
    ensures
        chain_matches(sel, nodes, i) <==> match nodes[i].lookup(default_ns(), class_name()) {
            Some(cv) => forall|k: int|
                0 <= k < sel.classes@.len() ==> has_token(cv, (#[trigger] sel.classes@[k])@),
            None => false,
        },
{
}

} // verus!
