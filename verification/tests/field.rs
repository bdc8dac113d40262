use rusty_shark::field::{collect, extract, present, write_verbose, Node, Value};

#[test]
fn extract_finds_nested_field() {
    let mut ip = Node::proto("Internet Protocol Version 4");
    ip.add("ip.src", Value::Str("10.0.0.1".into()), "Source: 10.0.0.1");
    ip.add("ip.ttl", Value::Uint(64), "Time to Live: 64");
    let tree = vec![ip];

    assert_eq!(
        extract(&tree, "ip.src"),
        Some(&Value::Str("10.0.0.1".into()))
    );
    assert_eq!(extract(&tree, "ip.ttl"), Some(&Value::Uint(64)));
    assert_eq!(extract(&tree, "ip.dst"), None);
}

#[test]
fn verbose_indents_by_depth() {
    let mut eth = Node::proto("Ethernet II");
    eth.add("eth.type", Value::Uint(0x0800), "Type: IPv4 (0x0800)");
    let mut s = String::new();
    write_verbose(&mut s, &[eth]);
    assert_eq!(s, "Ethernet II\n    Type: IPv4 (0x0800)\n");
}

#[test]
fn value_display() {
    assert_eq!(Value::Uint(42).to_string(), "42");
    assert_eq!(Value::Str("x".into()).to_string(), "x");
    assert_eq!(Value::Empty.to_string(), "");
}

#[test]
fn verbose_appends_and_goes_deep() {
    let mut inner = Node::proto("inner");
    inner.add("a.b", Value::Empty, "leaf");
    let mut outer = Node::proto("outer");
    outer.push(inner);
    let mut s = String::from("before\n");
    write_verbose(&mut s, &[outer, Node::proto("next")]);
    assert_eq!(s, "before\nouter\n    inner\n        leaf\nnext\n");
}

#[test]
fn collect_keeps_order_and_extract_takes_the_first() {
    let mut a = Node::proto("A");
    a.add("n", Value::Uint(1), "");
    let mut b = Node::field("n", Value::Uint(2), "");
    b.add("n", Value::Uint(3), "");
    a.push(b);
    let tree = vec![a, Node::field("n", Value::Uint(4), "")];
    let found: Vec<String> = collect(&tree, "n").into_iter().map(|v| v.to_string()).collect();
    assert_eq!(found, vec!["1", "2", "3", "4"]);
    assert_eq!(extract(&tree, "n"), Some(&Value::Uint(1)));
    assert!(collect(&tree, "m").is_empty());
}

#[test]
fn presence_is_by_whole_name_parts() {
    let tree = vec![Node::field("ip.src", Value::Empty, "")];
    assert!(present(&tree, "ip.src"));
    assert!(present(&tree, "ip"));
    assert!(!present(&tree, "i"));
    assert!(!present(&tree, "ip.s"));
    assert!(!present(&tree, "ip.src.x"));
}

#[test]
fn a_clone_of_a_tree_says_the_same() {
    let mut a = Node::proto("A");
    a.add("n", Value::Str("v".into()), "t");
    let b = a.clone();
    assert_eq!(extract(&[b], "n"), Some(&Value::Str("v".into())));
}
