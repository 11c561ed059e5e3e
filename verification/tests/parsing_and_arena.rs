use tree_similarity::parsing::{parse_tree, token_count, TreeParseError};
use tree_similarity::tree::{NodeError, NodeId, TreeArena};

#[test]
fn parses_nested_tree_in_preorder() {
    let t = parse_tree("{a{b{c}}{d}}".as_bytes()).unwrap();
    assert_eq!(t.count(), 4);
    let labels: Vec<String> = t.as_slice().iter().map(|n| n.get().clone()).collect();
    assert_eq!(labels, vec!["a", "b", "c", "d"]);
    assert_eq!(t.node(1).parent(), Some(NodeId(1)));
    assert_eq!(t.node(2).parent(), Some(NodeId(2)));
    assert_eq!(t.node(3).parent(), Some(NodeId(1)));
    assert_eq!(t.node(1).next_sibling(), Some(NodeId(4)));
    assert_eq!(t.node(0).first_child(), Some(NodeId(2)));
    assert_eq!(t.node(0).last_child(), Some(NodeId(4)));
}

#[test]
fn escaped_braces_stay_in_labels() {
    let t = parse_tree("{a\\{b{c}}".as_bytes()).unwrap();
    assert_eq!(t.count(), 2);
    assert_eq!(t.node(0).get(), "a\\{b");
}

#[test]
fn rejects_leading_escape() {
    assert!(matches!(
        parse_tree("\\{a}{b}".as_bytes()),
        Err(TreeParseError::IncorrectFormat(_))
    ));
}

#[test]
fn rejects_unbalanced_closing() {
    assert!(matches!(
        parse_tree("{a}}".as_bytes()),
        Err(TreeParseError::IncorrectFormat(_))
    ));
}

#[test]
fn short_input_with_leading_escape_is_refused() {
    assert!(matches!(parse_tree("\\a".as_bytes()), Err(TreeParseError::IncorrectFormat(_))));
}

#[test]
fn counts_tokens() {
    assert_eq!(token_count("{a{b}}".as_bytes()), 4);
    assert_eq!(token_count("{a\\}}".as_bytes()), 2);
    assert_eq!(token_count("abc".as_bytes()), 0);
}

#[test]
fn new_node_and_append_build_a_tree() {
    let mut t = parse_tree("{r}".as_bytes()).unwrap();
    let root = t.get_root_id().unwrap();
    let n = t.new_node("x".to_string());
    root.append(n, &mut t);
    assert_eq!(t.count(), 2);
    assert_eq!(t.node(1).parent(), Some(root));
    assert_eq!(t.node(0).first_child(), Some(n));
    assert_eq!(n.index(), 1);
}

#[test]
fn checked_append_refuses_self() {
    let mut t = parse_tree("{r}".as_bytes()).unwrap();
    let root = t.get_root_id().unwrap();
    assert_eq!(root.checked_append(root, &mut t), Err(NodeError::AppendSelf));
    assert_eq!(t.count(), 1);
    let n = t.new_node("x".to_string());
    assert_eq!(root.checked_append(n, &mut t), Ok(()));
    assert_eq!(t.node(1).parent(), Some(root));
}

#[test]
fn ancestors_from_node_to_root() {
    let t = parse_tree("{a{b{c}}{d}}".as_bytes()).unwrap();
    assert_eq!(NodeId(3).ancestors(&t), vec![NodeId(3), NodeId(2), NodeId(1)]);
    assert_eq!(NodeId(4).ancestors(&t), vec![NodeId(4), NodeId(1)]);
    assert_eq!(NodeId(1).ancestors(&t), vec![NodeId(1)]);
}

#[test]
fn descendants_in_preorder() {
    let t = parse_tree("{a{b{c}}{d}}".as_bytes()).unwrap();
    assert_eq!(
        NodeId(1).descendants(&t),
        vec![NodeId(1), NodeId(2), NodeId(3), NodeId(4)]
    );
    assert_eq!(NodeId(2).descendants(&t), vec![NodeId(2), NodeId(3)]);
    assert_eq!(NodeId(4).descendants(&t), vec![NodeId(4)]);
}

#[test]
fn iter_and_capacity() {
    let t = parse_tree("{a{b}{c}}".as_bytes()).unwrap();
    let labels: Vec<&String> = t.iter().map(|n| n.get()).collect();
    assert_eq!(labels, vec!["a", "b", "c"]);
    assert!(t.capacity() >= t.count());
}

#[test]
fn get_mut_changes_a_label_in_place() {
    let mut t = parse_tree("{a{b}{c}}".as_bytes()).unwrap();
    {
        let node = t.get_mut(NodeId(2)).unwrap();
        *node.get_mut() = "z".to_string();
    }
    assert_eq!(t.node(1).get(), "z");
    assert_eq!(t.node(1).parent(), Some(NodeId(1)));
    assert!(t.get_mut(NodeId(9)).is_none());
}

#[test]
fn with_capacity_reserves_the_requested_nodes() {
    let t = TreeArena::with_capacity(10);
    assert_eq!(t.count(), 0);
    assert!(t.capacity() >= 10);
}
