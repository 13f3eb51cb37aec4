use quill::construct::split_key;
use quill::markup::{RawElement, RawNode};
use quill::store::XmlStore;
use quill::xml::{Attribute, Document, NodeAsync, XmlNode};

fn parse(text: &str) -> (Document, Vec<NodeAsync>) {
    let mut store = XmlStore::new();
    store.append_from_source("t".to_string(), text.to_string()).unwrap();
    let entry = store.indices.pop().unwrap();
    (entry.document, entry.nodes)
}

#[test]
fn every_node_has_an_identity() {
    let (doc, roots) = parse("<a id=\"given\"><b/>text<c id=\"c1\"/></a>");
    for i in 0..doc.len() {
        let n = doc.node(NodeAsync { index: i });
        assert!(n.has_attribute("Default", "id"));
    }
    let a = doc.node(roots[0]);
    assert_eq!(a.get_attribute("Default", "id"), Some("given".to_string()));
    let b = doc.node(a.children[0]);
    let b_id = b.get_attribute("Default", "id").unwrap();
    assert!(b_id.starts_with("pk-"));
    assert_eq!(b_id.len(), 39);
    let t = doc.node(a.children[1]);
    let t_id = t.get_attribute("Default", "id").unwrap();
    assert!(t_id.starts_with("pk-"));
    assert_ne!(b_id, t_id);
    let c = doc.node(a.children[2]);
    assert_eq!(c.get_attribute("Default", "id"), Some("c1".to_string()));
}

#[test]
fn parent_walk_reaches_a_root() {
    let (doc, _) = parse("<a><b><c><d/></c></b><e/></a>");
    for i in 0..doc.len() {
        let mut cur = NodeAsync { index: i };
        let mut steps = 0;
        while let Some(p) = doc.node(cur).parent {
            assert!(p.index < cur.index);
            cur = p;
            steps += 1;
            assert!(steps <= doc.len());
        }
        assert_eq!(doc.node(cur).name, "a");
    }
}

#[test]
fn text_becomes_a_text_content_node() {
    let (doc, roots) = parse("<P>hello</P>");
    let p = doc.node(roots[0]);
    assert_eq!(p.name, "P");
    assert_eq!(p.children.len(), 1);
    let t = doc.node(p.children[0]);
    assert_eq!(t.name, "text-content");
    assert_eq!(t.namespace, "Default");
    assert_eq!(t.get_attribute("Default", "content"), Some("hello".to_string()));
    assert_eq!(t.parent, Some(roots[0]));
    assert!(t.children.is_empty());
}

#[test]
fn text_content_is_trimmed() {
    let (doc, roots) = parse("<P>  padded words \n</P>");
    let t = doc.node(doc.node(roots[0]).children[0]);
    assert_eq!(t.get_attribute("Default", "content"), Some("padded words".to_string()));
}

#[test]
fn comments_and_instructions_are_dropped() {
    let (doc, roots) = parse("<a><!-- note --><?pi data?><b/></a>");
    let a = doc.node(roots[0]);
    assert_eq!(a.children.len(), 1);
    assert_eq!(doc.node(a.children[0]).name, "b");
}

#[test]
fn children_keep_source_order() {
    let (doc, roots) = parse("<a><x/><y/><z/></a>");
    let a = doc.node(roots[0]);
    let names: Vec<String> = a.children.iter().map(|c| doc.node(*c).name.clone()).collect();
    assert_eq!(names, vec!["x", "y", "z"]);
    for c in a.children.iter() {
        assert_eq!(doc.node(*c).parent, Some(roots[0]));
    }
}

#[test]
fn namespaces_resolve_to_binding_keys() {
    let (doc, roots) = parse("<a xmlns=\"urn:d\" xmlns:x=\"urn:x\"><x:b/><c/></a>");
    let a = doc.node(roots[0]);
    assert_eq!(a.namespace, "Default");
    assert!(a.namespaces.iter().any(|(k, v)| k == "Default" && v == "urn:d"));
    assert!(a.namespaces.iter().any(|(k, v)| k == "x" && v == "urn:x"));
    let b = doc.node(a.children[0]);
    assert_eq!(b.name, "b");
    assert_eq!(b.namespace, "x");
    assert_eq!(b.prefix, Some("x".to_string()));
    let c = doc.node(a.children[1]);
    assert_eq!(c.namespace, "Default");
}

#[test]
fn unbound_namespace_stays_default() {
    let (doc, roots) = parse("<a/>");
    assert_eq!(doc.node(roots[0]).namespace, "Default");
    assert_eq!(doc.node(roots[0]).prefix, None);
}

#[test]
fn attribute_keys_split_on_the_first_colon() {
    assert_eq!(split_key("x:attr"), ("x".to_string(), "attr".to_string()));
    assert_eq!(split_key("attr"), ("Default".to_string(), "attr".to_string()));
    assert_eq!(split_key(":attr"), ("Default".to_string(), "attr".to_string()));
    assert_eq!(split_key("a:b:c"), ("a".to_string(), "b:c".to_string()));
    assert_eq!(split_key(""), ("Default".to_string(), "".to_string()));
}

#[test]
fn missing_attribute_is_absent() {
    let (doc, roots) = parse("<a k=\"v\"/>");
    let a = doc.node(roots[0]);
    assert!(a.has_attribute("Default", "k"));
    assert_eq!(a.get_attribute("Default", "k"), Some("v".to_string()));
    assert!(!a.has_attribute("Default", "missing"));
    assert!(!a.has_attribute("other", "k"));
    assert_eq!(a.get_attribute("Default", "missing"), None);
}

#[test]
fn leaves_come_last_child_first() {
    let (doc, roots) = parse("<r><a><a1/></a><b/></r>");
    let leaves = roots[0].get_leaves(&doc);
    let names: Vec<String> = leaves.iter().map(|h| doc.node(*h).name.clone()).collect();
    assert_eq!(names, vec!["b", "a1"]);
    let single = leaves[0].get_leaves(&doc);
    assert_eq!(single, vec![leaves[0]]);
}

#[test]
fn node_text_is_its_path() {
    let (doc, roots) = parse("<Container><Row/></Container>");
    let row = doc.node(roots[0]).children[0];
    assert_eq!(row.to_string(&doc), "Container > Row");
    assert_eq!(roots[0].to_string(&doc), "Container");
}

#[test]
fn forest_is_built_from_raw_items() {
    let inner = RawElement {
        prefix: None,
        namespace: Some("urn:q".to_string()),
        namespaces: Some(vec![("q".to_string(), "urn:q".to_string()), ("".to_string(), "urn:d".to_string())]),
        name: "inner".to_string(),
        attributes: vec![("id".to_string(), "i1".to_string()), ("q:k".to_string(), "v".to_string())],
        children: vec![],
    };
    let outer = RawElement {
        prefix: None,
        namespace: Some("urn:none".to_string()),
        namespaces: None,
        name: "outer".to_string(),
        attributes: vec![],
        children: vec![
            RawNode::Comment("c".to_string()),
            RawNode::Element(inner),
            RawNode::CData("x".to_string()),
            RawNode::Text(" t ".to_string()),
        ],
    };
    let raws = vec![RawNode::Text("top".to_string()), RawNode::Element(outer)];
    let (doc, roots) = Document::from_markup(&raws);
    assert_eq!(roots.len(), 1);
    assert_eq!(doc.len(), 3);
    let o = doc.node(roots[0]);
    assert_eq!(o.name, "outer");
    assert_eq!(o.namespace, "Default");
    assert_eq!(o.children.len(), 2);
    let i = doc.node(o.children[0]);
    assert_eq!(i.name, "inner");
    assert_eq!(i.namespace, "q");
    assert_eq!(i.namespaces[1], ("Default".to_string(), "urn:d".to_string()));
    assert_eq!(i.get_attribute("Default", "id"), Some("i1".to_string()));
    assert_eq!(i.get_attribute("q", "k"), Some("v".to_string()));
    assert_eq!(i.attributes.len(), 2);
    let t = doc.node(o.children[1]);
    assert_eq!(t.get_attribute("Default", "content"), Some("t".to_string()));
}

fn node(name: &str, id: &str, parent: Option<NodeAsync>) -> XmlNode {
    XmlNode {
        prefix: None,
        namespace: "Default".to_string(),
        namespaces: vec![],
        name: name.to_string(),
        attributes: vec![Attribute {
            namespace: "Default".to_string(),
            name: "id".to_string(),
            value: id.to_string(),
        }],
        children: vec![],
        parent,
    }
}

#[test]
fn nodes_pushed_by_hand_are_linked() {
    let mut doc = Document::new();
    let root = doc.push_node(node("r", "1", None), None);
    let a = doc.push_node(node("a", "2", Some(root)), Some(root));
    let b = doc.push_node(node("b", "3", Some(a)), Some(a));
    assert_eq!((root.index, a.index, b.index), (0, 1, 2));
    assert_eq!(doc.node(root).children, vec![a]);
    assert_eq!(doc.node(a).children, vec![b]);
    assert_eq!(b.to_string(&doc), "r > a > b");
    assert_eq!(root.get_leaves(&doc), vec![b]);
}
