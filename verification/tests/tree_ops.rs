use pathtree::node::Node;
use pathtree::util::NodeError;

#[test]
fn test_tree() {
    // Init
    let mut root = Node::new(Some("root".to_string()));

    let hello = String::from("Hello");
    let world = String::from("world");

    let path = vec!["a", "b", "c"];
    let path_two = vec!["a", "2", "3", "4"];
    let path_three = vec!["collection"];
    let bad_path = vec!["!"];

    // Insert
    root.insert(&path[..], Some(hello.clone()));
    let found = root.check(&path[..]).unwrap().value.unwrap();
    assert_eq!(found, hello.clone());

    root.insert(&path_two[..], Some(world.clone()));
    let found = root.check(&path_two[..]).unwrap().value.unwrap();
    assert_eq!(found, world.clone());

    let found = root.check(&path[..path.len() - 1]).unwrap().value;
    assert_eq!(found, None);

    let found = root.check(&bad_path[..]);
    assert_eq!(found, None);

    // Put / Patch
    root.insert(&path[..], Some("Hola".to_string()));
    let found = root.check(&path[..]).unwrap().value.unwrap();
    assert_eq!(found, "Hola".to_string());

    let result = root.update(&path[..], ", Senora!".to_string()).unwrap();
    assert_eq!(result, "Hola, Senora!");

    // Query
    root.insert(&vec!["collection", "1"], Some("Alaska".to_string()));
    root.insert(&vec!["collection", "2"], Some("Alabama".to_string()));
    root.insert(&vec!["collection", "3"], Some("Maryland".to_string()));
    root.insert(&vec!["collection", "4"], Some("Arkansas".to_string()));
    root.insert(&vec!["collection", "5"], Some("Virginia".to_string()));
    root.insert(&vec!["collection", "6"], None);
    let filtered: Vec<String> = root
        .query(&path_three, |opt: &Option<String>| match opt {
            Some(state) => state.starts_with("Al"),
            None => false,
        })
        .into_iter()
        .map(|x| x.value.unwrap().clone())
        .collect();
    assert_eq!(filtered.len(), 2);
    assert!(filtered.contains(&"Alaska".to_string()));
    assert!(filtered.contains(&"Alabama".to_string()));

    // Delete
    root.delete(&path_three[..]).unwrap();
    let collection = root.find(&path_three[..]);
    assert!(match collection {
        Some(_) => false,
        None => true,
    })
}

#[test]
fn insert_then_check_returns_value() {
    let mut root: Node<String> = Node::new(None);
    root.insert(&["a", "b", "c"], Some("Hello".to_string()));
    let info = root.check(&["a", "b", "c"]).unwrap();
    assert_eq!(info.label, "c".to_string());
    assert_eq!(info.value, Some("Hello".to_string()));
}

#[test]
fn check_unknown_path_returns_nothing() {
    let mut root: Node<String> = Node::new(Some("root".to_string()));
    assert!(root.check(&["nowhere"]).is_none());
    root.insert(&["a", "b"], Some("x".to_string()));
    assert!(root.check(&["b"]).is_none());
    assert!(root.check(&["a", "b", "c"]).is_none());
    assert!(root.check(&[]).is_none());
}

#[test]
fn intermediates_are_structural_not_missing() {
    let mut root: Node<String> = Node::new(None);
    root.insert(&["a", "b", "c"], Some("Hello".to_string()));
    let info = root.check(&["a", "b"]).unwrap();
    assert_eq!(info.label, "b".to_string());
    assert_eq!(info.value, None);
    let info = root.check(&["a"]).unwrap();
    assert_eq!(info.value, None);
}

#[test]
fn insert_overwrites_and_keeps_subtree() {
    let mut root: Node<String> = Node::new(None);
    root.insert(&["a", "b"], Some("old".to_string()));
    root.insert(&["a", "b", "c"], Some("deep".to_string()));
    root.insert(&["a", "b"], Some("new".to_string()));
    assert_eq!(root.check(&["a", "b"]).unwrap().value, Some("new".to_string()));
    assert_eq!(root.check(&["a", "b", "c"]).unwrap().value, Some("deep".to_string()));
}

#[test]
fn insert_empty_path_is_a_no_op() {
    let mut root: Node<String> = Node::new(None);
    root.insert(&["a"], Some("x".to_string()));
    root.insert(&[], Some("y".to_string()));
    assert_eq!(root.check(&["a"]).unwrap().value, Some("x".to_string()));
    assert!(root.check(&[]).is_none());
}

#[test]
fn delete_removes_path_and_descendants() {
    let mut root: Node<String> = Node::new(None);
    root.insert(&["a", "b"], Some("x".to_string()));
    root.insert(&["a", "b", "c"], Some("y".to_string()));
    root.insert(&["a", "z"], Some("kept".to_string()));
    root.delete(&["a", "b"]).unwrap();
    assert!(root.find(&["a", "b"]).is_none());
    assert!(root.find(&["a", "b", "c"]).is_none());
    assert_eq!(root.check(&["a", "z"]).unwrap().value, Some("kept".to_string()));
}

#[test]
fn delete_missing_path_fails_not_found() {
    let mut root: Node<String> = Node::new(None);
    root.insert(&["a", "b"], Some("x".to_string()));
    assert_eq!(root.delete(&["a", "c"]), Err(NodeError::NotFound));
    assert_eq!(root.delete(&["b"]), Err(NodeError::NotFound));
    assert_eq!(root.delete(&[]), Err(NodeError::NotFound));
    // the tree is untouched
    assert_eq!(root.check(&["a", "b"]).unwrap().value, Some("x".to_string()));
}

#[test]
fn patch_merges_returns_and_persists() {
    let mut root: Node<String> = Node::new(None);
    root.insert(&["a", "b"], Some("Hola".to_string()));
    let merged = root.patch(&["a", "b"], ", Senora!".to_string()).unwrap();
    assert_eq!(merged, "Hola, Senora!".to_string());
    assert_eq!(root.check(&["a", "b"]).unwrap().value, Some("Hola, Senora!".to_string()));
}

#[test]
fn patch_failures_are_typed() {
    let mut root: Node<String> = Node::new(None);
    root.insert(&["a", "b", "c"], Some("x".to_string()));
    assert_eq!(root.patch(&["a", "q"], "d".to_string()), Err(NodeError::NotFound));
    assert_eq!(root.patch(&[], "d".to_string()), Err(NodeError::NotFound));
    // "a.b" exists but is structural: value absent
    assert_eq!(root.patch(&["a", "b"], "d".to_string()), Err(NodeError::IsNull));
    // nothing changed
    assert_eq!(root.check(&["a", "b", "c"]).unwrap().value, Some("x".to_string()));
}

#[test]
fn put_replaces_outright() {
    let mut root: Node<String> = Node::new(None);
    root.insert(&["doc"], Some("first".to_string()));
    let replaced = root.put(&["doc"], "second".to_string()).unwrap();
    assert_eq!(replaced, "second".to_string());
    assert_eq!(root.check(&["doc"]).unwrap().value, Some("second".to_string()));
    assert_eq!(root.put(&["gone"], "x".to_string()), Err(NodeError::NotFound));
    root.insert(&["hollow", "leaf"], Some("y".to_string()));
    assert_eq!(root.put(&["hollow"], "x".to_string()), Err(NodeError::IsNull));
}

#[test]
fn query_is_single_level_and_filtered() {
    let mut root: Node<String> = Node::new(None);
    root.insert(&["collection", "1"], Some("Alaska".to_string()));
    root.insert(&["collection", "2"], Some("Alabama".to_string()));
    root.insert(&["collection", "3"], Some("Maryland".to_string()));
    root.insert(&["collection", "1", "nested"], Some("Alpine".to_string()));
    let all: Vec<String> = root
        .query(&["collection"], |_v: &Option<String>| true)
        .into_iter()
        .map(|x| x.label)
        .collect();
    // grandchildren never appear
    assert_eq!(all.len(), 3);
    assert!(!all.contains(&"nested".to_string()));
    let starts: Vec<String> = root
        .query(&["collection"], |v: &Option<String>| match v {
            Some(s) => s.starts_with("Al"),
            None => false,
        })
        .into_iter()
        .map(|x| x.value.unwrap())
        .collect();
    assert_eq!(starts.len(), 2);
    assert!(starts.contains(&"Alaska".to_string()));
    assert!(starts.contains(&"Alabama".to_string()));
}

#[test]
fn query_missing_parent_yields_empty() {
    let root: Node<String> = Node::new(None);
    let r = root.query(&["nowhere"], |_v: &Option<String>| true);
    assert_eq!(r.len(), 0);
    let r = root.query(&[], |_v: &Option<String>| true);
    assert_eq!(r.len(), 0);
}

#[test]
fn find_mut_grants_access_to_located_node() {
    let mut root: Node<String> = Node::new(None);
    root.insert(&["a", "b"], Some("x".to_string()));
    assert!(root.find_mut(&["a", "b"]).is_some());
    assert!(root.find_mut(&["a", "q"]).is_none());
    assert!(root.find_mut(&[]).is_none());
}
