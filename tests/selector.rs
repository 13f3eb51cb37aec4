use quill::selector::{contains_token, NodeSelector};
use quill::store::XmlStore;
use quill::xml::{Document, NodeAsync};

fn load(text: &str) -> (Document, Vec<NodeAsync>) {
    let mut store = XmlStore::new();
    store.append_from_source("t".to_string(), text.to_string()).unwrap();
    let entry = store.indices.pop().unwrap();
    (entry.document, entry.nodes)
}

fn names(doc: &Document, hs: &[NodeAsync]) -> Vec<String> {
    hs.iter().map(|h| doc.node(*h).name.clone()).collect()
}

fn ids(doc: &Document, hs: &[NodeAsync]) -> Vec<String> {
    hs.iter().map(|h| doc.node(*h).get_attribute("Default", "id").unwrap()).collect()
}

#[test]
fn universal_selector_reports_every_path_node() {
    let (doc, roots) = load("<R><A><A1/></A><B/></R>");
    let mut sel = NodeSelector::any();
    let found = sel.apply(&doc, roots[0]);
    assert_eq!(names(&doc, &found), vec!["B", "R", "A1", "A", "R"]);
    let mut distinct: Vec<String> = names(&doc, &found);
    distinct.sort();
    distinct.dedup();
    assert_eq!(distinct, vec!["A", "A1", "B", "R"]);
}

#[test]
fn tag_and_ancestor_combinator() {
    let (doc, roots) = load(
        "<Container><Row id=\"r1\"/><Row id=\"r2\"/></Container><Row id=\"r3\"/>",
    );
    let mut sel = NodeSelector::new().named("Container".to_string()).child().named("Row".to_string());
    let mut found: Vec<String> = Vec::new();
    for root in roots.iter() {
        let r = sel.apply(&doc, *root);
        found.extend(ids(&doc, &r));
    }
    found.sort();
    assert_eq!(found, vec!["r1", "r2"]);
    assert_eq!(sel.to_string(), "Container > Row");
}

#[test]
fn selector_is_reusable_across_applications() {
    let (doc, roots) = load("<Container><Row id=\"r1\"/><Row id=\"r2\"/></Container>");
    let mut sel = NodeSelector::new().named("Container".to_string()).child().named("Row".to_string());
    let first = sel.apply(&doc, roots[0]);
    let second = sel.apply(&doc, roots[0]);
    assert_eq!(first.len(), 2);
    assert_eq!(first, second);
}

#[test]
fn attribute_presence_and_equality() {
    let (doc, roots) = load(
        "<root><a class=\"nav\"/><b class=\"nav main\"/><c other=\"nav\"/></root>",
    );
    let mut present = NodeSelector::new().with("class".to_string(), None);
    let mut p = names(&doc, &present.apply(&doc, roots[0]));
    p.sort();
    assert_eq!(p, vec!["a", "b"]);

    let mut exact = NodeSelector::new().with("class".to_string(), Some("nav".to_string()));
    assert_eq!(names(&doc, &exact.apply(&doc, roots[0])), vec!["a"]);

    let mut one_class = NodeSelector::new().classes(vec!["nav".to_string()]);
    let mut c = names(&doc, &one_class.apply(&doc, roots[0]));
    c.sort();
    assert_eq!(c, vec!["a", "b"]);

    let mut two_classes = NodeSelector::new().classes(vec!["main".to_string(), "nav".to_string()]);
    assert_eq!(names(&doc, &two_classes.apply(&doc, roots[0])), vec!["b"]);
}

#[test]
fn identity_selector() {
    let (doc, roots) = load("<a><b id=\"x\"/><b id=\"y\"/></a>");
    let mut sel = NodeSelector::new().is("y".to_string());
    let found = sel.apply(&doc, roots[0]);
    assert_eq!(ids(&doc, &found), vec!["y"]);
    let mut tagged = NodeSelector::new().named("b".to_string()).is("x".to_string());
    assert_eq!(ids(&doc, &tagged.apply(&doc, roots[0])), vec!["x"]);
    let mut none = NodeSelector::new().named("a".to_string()).is("x".to_string());
    assert!(none.apply(&doc, roots[0]).is_empty());
}

#[test]
fn node_without_parent_fails_an_ancestor_constraint() {
    let (doc, roots) = load("<Row/>");
    let mut sel = NodeSelector::any().child().named("Row".to_string());
    assert!(sel.apply(&doc, roots[0]).is_empty());
    let mut plain = NodeSelector::new().named("Row".to_string());
    assert_eq!(plain.apply(&doc, roots[0]), vec![roots[0]]);
}

#[test]
fn match_immediate_refuses_a_node_seen_before() {
    let (doc, roots) = load("<a/>");
    let mut sel = NodeSelector::new().named("a".to_string());
    assert!(sel.match_immediate(&doc, roots[0]));
    assert!(!sel.match_immediate(&doc, roots[0]));
    sel.clear_visited();
    assert!(sel.visited.is_empty());
    assert!(sel.match_immediate(&doc, roots[0]));

    let mut any = NodeSelector::any();
    assert!(any.match_immediate(&doc, roots[0]));
    assert!(any.match_immediate(&doc, roots[0]));
    assert!(any.visited.is_empty());
}

#[test]
fn clear_visited_reaches_every_level() {
    let (doc, roots) = load("<a><b/></a>");
    let mut sel = NodeSelector::new().named("a".to_string());
    sel.match_immediate(&doc, roots[0]);
    let mut chained = sel.child();
    chained.clear_visited();
    assert!(chained.parent.as_ref().unwrap().visited.is_empty());
}

#[test]
fn variants_are_recorded_without_effect() {
    let (doc, roots) = load("<a><b/></a>");
    let mut sel = NodeSelector::new().named("b".to_string()).variant("hover".to_string());
    assert_eq!(sel.pseudoclasses, vec!["hover".to_string()]);
    assert_eq!(names(&doc, &sel.apply(&doc, roots[0])), vec!["b"]);
}

#[test]
fn default_selector_is_empty() {
    let sel = NodeSelector::default();
    assert!(!sel.is_universal);
    assert!(sel.tag_name.is_none());
    assert!(sel.parent.is_none());
    assert_eq!(sel.to_string(), "");
}

#[test]
fn text_content_nodes_can_be_selected() {
    let (doc, roots) = load("<P>hello</P>");
    let mut sel = NodeSelector::new()
        .named("text-content".to_string())
        .with("content".to_string(), Some("hello".to_string()));
    let found = sel.apply(&doc, roots[0]);
    assert_eq!(found.len(), 1);
    assert_eq!(doc.node(found[0]).parent, Some(roots[0]));
}

#[test]
fn class_tokens() {
    assert!(contains_token("nav main", "nav"));
    assert!(contains_token("nav main", "main"));
    assert!(contains_token("  nav\tmain ", "main"));
    assert!(!contains_token("navigation", "nav"));
    assert!(!contains_token("nav main", "av"));
    assert!(!contains_token("nav main", "nav main"));
    assert!(!contains_token("nav", ""));
    assert!(!contains_token("", "nav"));
}
