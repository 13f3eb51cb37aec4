use quill::store::{Error, XmlStore};

#[test]
fn registration_round_trip() {
    let mut store = XmlStore::new();
    let first_roots = {
        let entry = store
            .append_from_source("doc".to_string(), "<a><b/></a>".to_string())
            .unwrap();
        assert_eq!(entry.index, "doc");
        entry.nodes.len()
    };
    assert!(store.has("doc".to_string()));
    assert!(!store.has("other".to_string()));

    let second = store.append_from_source("doc".to_string(), "<c/>".to_string());
    match second {
        Err(Error::AlreadyInStore(name)) => assert_eq!(name, "doc"),
        _ => panic!("a second registration under the same name must be refused"),
    }
    let entry = store.get("doc".to_string()).unwrap();
    assert_eq!(entry.source, "<a><b/></a>");
    assert_eq!(entry.nodes.len(), first_roots);
    let root = entry.document.node(entry.nodes[0]);
    assert_eq!(root.name, "a");
    assert_eq!(store.indices.len(), 1);
}

#[test]
fn malformed_markup_is_reported_and_not_registered() {
    let mut store = XmlStore::new();
    let r = store.append_from_source("bad".to_string(), "<a><b></a>".to_string());
    match r {
        Err(Error::SourceReadFailure(contents)) => {
            assert_eq!(contents.entry_index, "bad");
            assert!(!contents.failure_message.is_empty());
        }
        _ => panic!("malformed markup must fail to parse"),
    }
    assert!(!store.has("bad".to_string()));
    assert!(store.get("bad".to_string()).is_none());
    assert_eq!(store.indices.len(), 0);
}

#[test]
fn several_top_level_elements_become_several_roots() {
    let mut store = XmlStore::new();
    let entry = store
        .append_from_source("d".to_string(), "<!-- note --><x/><y/>".to_string())
        .unwrap();
    assert_eq!(entry.nodes.len(), 2);
    assert_eq!(entry.document.node(entry.nodes[0]).name, "x");
    assert_eq!(entry.document.node(entry.nodes[1]).name, "y");
    assert!(entry.document.node(entry.nodes[0]).parent.is_none());
}

#[test]
fn names_are_kept_apart() {
    let mut store = XmlStore::new();
    store.append_from_source("one".to_string(), "<a/>".to_string()).unwrap();
    store.append_from_source("two".to_string(), "<b/>".to_string()).unwrap();
    let one = store.get("one".to_string()).unwrap();
    assert_eq!(one.document.node(one.nodes[0]).name, "a");
    let two = store.get("two".to_string()).unwrap();
    assert_eq!(two.document.node(two.nodes[0]).name, "b");
}

#[test]
fn empty_markup_is_malformed() {
    let mut store = XmlStore::new();
    match store.append_from_source("empty".to_string(), String::new()) {
        Err(Error::SourceReadFailure(contents)) => assert_eq!(contents.entry_index, "empty"),
        _ => panic!("markup without a root element must fail to parse"),
    }
    assert!(!store.has("empty".to_string()));
}
