use richtext::directory::Directory;

#[test]
fn insert_then_get_same_key() {
    let mut dir: Directory<u32> = Directory::new();
    dir.insert("a.b.c", 7);
    assert_eq!(dir.get("a.b.c"), Some(&7));
}

#[test]
fn get_unrelated_sibling_is_none() {
    let mut dir: Directory<u32> = Directory::new();
    dir.insert("a.b.c", 7);
    assert_eq!(dir.get("a.b.d"), None);
    assert_eq!(dir.get("a.b"), None);
    assert_eq!(dir.get("a"), None);
    assert_eq!(dir.get("a.b.c.d"), None);
    assert_eq!(dir.get("x"), None);
}

#[test]
fn insert_overwrites_leaf_and_keeps_children() {
    let mut dir: Directory<&'static str> = Directory::new();
    dir.insert("a.b.c", "deep");
    dir.insert("a.b", "mid");
    assert_eq!(dir.get("a.b"), Some(&"mid"));
    assert_eq!(dir.get("a.b.c"), Some(&"deep"));
    dir.insert("a.b", "mid2");
    assert_eq!(dir.get("a.b"), Some(&"mid2"));
    assert_eq!(dir.get("a.b.c"), Some(&"deep"));
}

#[test]
fn keys_split_on_dots_only() {
    let mut dir: Directory<u32> = Directory::new();
    dir.insert("one", 1);
    dir.insert("one.two", 2);
    assert_eq!(dir.get("one"), Some(&1));
    assert_eq!(dir.get("one.two"), Some(&2));
    // empty segments are segments too
    dir.insert("a..b", 3);
    assert_eq!(dir.get("a..b"), Some(&3));
    assert_eq!(dir.get("a.b"), None);
}

#[test]
fn node_walk_through_root() {
    let mut dir: Directory<u32> = Directory::new();
    dir.insert("x.y", 5);
    let root = dir.root();
    let x = root.deeper(&"x".to_string()).expect("segment x");
    assert!(x.get().is_none());
    let y = x.deeper(&"y".to_string()).expect("segment y");
    assert_eq!(y.get(), Some(&5));
    assert!(x.deeper(&"z".to_string()).is_none());
}
