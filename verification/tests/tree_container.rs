use regex_engine::tree::{holds, TreeNode};

#[test]
fn new_tree_has_one_root() {
    let tree = TreeNode::new(7u32);
    assert_eq!(tree.len(), 1);
    assert_eq!(*tree.content(0), 7);
    assert_eq!(tree.parent(0), None);
    assert!(tree.children(0).is_empty());
    assert_eq!(tree.root(0), 0);
}

#[test]
fn push_appends_in_order_and_links_back() {
    let mut tree = TreeNode::new("r".to_string());
    let a = tree.push(0, "a".to_string());
    let b = tree.push(0, "b".to_string());
    let c = tree.push(a, "c".to_string());
    assert_eq!((a, b, c), (1, 2, 3));
    assert_eq!(tree.len(), 4);
    assert_eq!(tree.children(0), &vec![a, b]);
    assert_eq!(tree.children(a), &vec![c]);
    assert!(tree.children(b).is_empty());
    assert_eq!(tree.parent(a), Some(0));
    assert_eq!(tree.parent(b), Some(0));
    assert_eq!(tree.parent(c), Some(a));
    assert_eq!(tree.content(c), "c");
}

#[test]
fn every_child_is_listed_once_by_its_parent() {
    let mut tree = TreeNode::new(0u32);
    let a = tree.push(0, 1);
    let b = tree.push(a, 2);
    let _ = tree.push(a, 3);
    let _ = tree.push(b, 4);
    let _ = tree.push(0, 5);
    for node in 1..tree.len() {
        let p = tree.parent(node).unwrap();
        let count = tree.children(p).iter().filter(|c| **c == node).count();
        assert_eq!(count, 1);
        for other in 0..tree.len() {
            if other != p {
                assert!(!holds(tree.children(other), node));
            }
        }
    }
}

#[test]
fn root_walks_to_the_top() {
    let mut tree = TreeNode::new(0u32);
    let a = tree.push(0, 1);
    let b = tree.push(a, 2);
    let c = tree.push(b, 3);
    assert_eq!(tree.root(c), 0);
    assert_eq!(tree.root(b), 0);
    assert_eq!(tree.root(0), 0);
}

#[test]
fn content_can_be_written_through_any_handle() {
    let mut tree = TreeNode::new(10u32);
    let a = tree.push(0, 20);
    *tree.content_mut(a) += 1;
    assert_eq!(*tree.content(a), 21);
    assert_eq!(*tree.content(0), 10);
    tree.set_content(0, 99);
    assert_eq!(*tree.content(0), 99);
    assert_eq!(*tree.content(a), 21);
    assert_eq!(tree.children(0), &vec![a]);
}

#[test]
fn children_mut_filters_and_detaches() {
    let mut tree = TreeNode::new(0u32);
    let a = tree.push(0, 1);
    let b = tree.push(0, 2);
    let c = tree.push(0, 3);
    let below = tree.push(b, 4);
    assert!(tree.children_mut(0, vec![a, c]));
    assert_eq!(tree.children(0), &vec![a, c]);
    assert_eq!(tree.parent(b), None);
    assert_eq!(tree.parent(a), Some(0));
    assert_eq!(tree.parent(c), Some(0));
    assert_eq!(tree.parent(below), Some(b));
    assert_eq!(tree.root(below), b);
    assert_eq!(tree.len(), 5);
}

#[test]
fn children_mut_reorders_and_clears() {
    let mut tree = TreeNode::new(0u32);
    let a = tree.push(0, 1);
    let b = tree.push(0, 2);
    assert!(tree.children_mut(0, vec![b, a]));
    assert_eq!(tree.children(0), &vec![b, a]);
    assert!(tree.children_mut(0, vec![]));
    assert!(tree.children(0).is_empty());
    assert_eq!(tree.parent(a), None);
    assert_eq!(tree.parent(b), None);
}

#[test]
fn children_mut_refuses_strangers_and_repeats() {
    let mut tree = TreeNode::new(0u32);
    let a = tree.push(0, 1);
    let b = tree.push(a, 2);
    assert!(!tree.children_mut(0, vec![a, a]));
    assert!(!tree.children_mut(0, vec![b]));
    assert!(!tree.children_mut(0, vec![17]));
    assert!(!tree.children_mut(9, vec![]));
    assert_eq!(tree.children(0), &vec![a]);
    assert_eq!(tree.children(a), &vec![b]);
    assert_eq!(tree.parent(a), Some(0));
    assert_eq!(tree.parent(b), Some(a));
}

#[test]
fn holds_finds_members_only() {
    let v = vec![3usize, 5, 8];
    assert!(holds(&v, 5));
    assert!(!holds(&v, 4));
    assert!(!holds(&Vec::new(), 0));
}
