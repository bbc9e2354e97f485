use regex_engine::cppbridge::{conv_tree, TreeRecord};
use regex_engine::parse::{merge_literal, TreeItem};
use regex_engine::tree::TreeNode;

fn item(title: &str, detail: &str, start: usize, end: usize) -> TreeItem {
    TreeItem::new(title.to_string(), detail.to_string(), start, end)
}

fn leaf(title: &str, detail: &str, start: u32, end: u32) -> TreeRecord {
    node(title, detail, start, end, vec![])
}

fn node(title: &str, detail: &str, start: u32, end: u32, children: Vec<TreeRecord>) -> TreeRecord {
    TreeRecord { title: title.to_string(), content: detail.to_string(), start, end, children }
}

fn same(a: &TreeRecord, b: &TreeRecord) -> bool {
    a.title == b.title
        && a.content == b.content
        && a.start == b.start
        && a.end == b.end
        && a.children.len() == b.children.len()
        && a.children.iter().zip(b.children.iter()).all(|(x, y)| same(x, y))
}

fn plant(tree: &mut TreeNode<TreeItem>, at: usize, record: &TreeRecord) {
    for child in record.children.iter() {
        let id = tree.push(
            at,
            item(&child.title, &child.content, child.start as usize, child.end as usize),
        );
        plant(tree, id, child);
    }
}

fn grow(record: &TreeRecord) -> TreeNode<TreeItem> {
    let mut tree = TreeNode::new(item(
        &record.title,
        &record.content,
        record.start as usize,
        record.end as usize,
    ));
    plant(&mut tree, 0, record);
    tree
}

fn merged(record: &TreeRecord) -> TreeRecord {
    let mut tree = grow(record);
    merge_literal(&mut tree, 0);
    conv_tree(&tree, 0)
}

fn expect(input: TreeRecord, output: TreeRecord) {
    let got = merged(&input);
    assert!(same(&got, &output), "got {} nodes at top", got.children.len());
}

#[test]
fn item_keeps_offsets_in_32_bits() {
    let it = item("t", "d", 3, 9);
    assert_eq!(it.title, "t");
    assert_eq!(it.content, "d");
    assert_eq!(it.span, 3..9);
    let wide = item("t", "d", 0x1_0000_0005, 0x2_0000_0007);
    assert_eq!(wide.span, 5..7);
}

#[test]
fn export_copies_the_tree_depth_first() {
    let shape = node(
        "sequence",
        "",
        0,
        4,
        vec![
            node("indexed group<1>", "", 0, 3, vec![leaf("literal", "a", 1, 2)]),
            leaf("any character", "", 3, 4),
        ],
    );
    let tree = grow(&shape);
    assert!(same(&conv_tree(&tree, 0), &shape));
    assert!(same(&conv_tree(&tree, 1), &shape.children[0]));
    assert!(same(&conv_tree(&tree, 3), &shape.children[1]));
}

#[test]
fn sequence_of_literals_collapses() {
    expect(
        node(
            "sequence",
            "",
            0,
            3,
            vec![leaf("literal", "a", 0, 1), leaf("literal", "b", 1, 2), leaf("literal", "c", 2, 3)],
        ),
        leaf("plain text", "abc", 0, 3),
    );
}

#[test]
fn sequence_of_one_literal_collapses() {
    expect(
        node("sequence", "", 4, 5, vec![leaf("literal", "x", 4, 5)]),
        leaf("plain text", "x", 4, 5),
    );
}

#[test]
fn empty_sequence_is_left_alone() {
    expect(leaf("sequence", "", 2, 2), leaf("sequence", "", 2, 2));
}

#[test]
fn alternation_retitles_without_joining() {
    expect(
        node(
            "alternatives",
            "",
            0,
            5,
            vec![leaf("literal", "a", 0, 1), leaf("literal", "b", 2, 3), leaf("literal", "c", 4, 5)],
        ),
        node(
            "alternatives",
            "",
            0,
            5,
            vec![
                leaf("plain text", "a", 0, 1),
                leaf("plain text", "b", 2, 3),
                leaf("plain text", "c", 4, 5),
            ],
        ),
    );
}

#[test]
fn literals_under_any_other_node_become_one_run() {
    expect(
        node(
            "in set",
            "",
            0,
            5,
            vec![leaf("literal", "a", 1, 2), leaf("literal", "b", 2, 3), leaf("literal", "c", 3, 4)],
        ),
        node("in set", "", 0, 5, vec![leaf("plain text", "abc", 1, 4)]),
    );
}

#[test]
fn single_literal_child_becomes_a_run_of_one() {
    expect(
        node("greedy repetition", "1 or more", 0, 2, vec![leaf("literal", "a", 0, 1)]),
        node("greedy repetition", "1 or more", 0, 2, vec![leaf("plain text", "a", 0, 1)]),
    );
}

#[test]
fn another_node_closes_the_run() {
    expect(
        node(
            "sequence",
            "",
            0,
            5,
            vec![
                leaf("literal", "a", 0, 1),
                leaf("literal", "b", 1, 2),
                leaf("any character", "", 2, 3),
                leaf("literal", "c", 3, 4),
                leaf("literal", "d", 4, 5),
            ],
        ),
        node(
            "sequence",
            "",
            0,
            5,
            vec![
                leaf("plain text", "ab", 0, 2),
                leaf("any character", "", 2, 3),
                leaf("plain text", "cd", 3, 5),
            ],
        ),
    );
}

#[test]
fn text_already_there_is_not_joined() {
    expect(
        node(
            "in set",
            "",
            0,
            3,
            vec![leaf("plain text", "ab", 0, 2), leaf("literal", "c", 2, 3)],
        ),
        node(
            "in set",
            "",
            0,
            3,
            vec![leaf("plain text", "ab", 0, 2), leaf("plain text", "c", 2, 3)],
        ),
    );
}

#[test]
fn untitled_nodes_are_taken_out_and_close_the_run() {
    expect(
        node(
            "group",
            "",
            0,
            3,
            vec![leaf("literal", "a", 0, 1), leaf("", "gone", 1, 2), leaf("literal", "b", 2, 3)],
        ),
        node(
            "group",
            "",
            0,
            3,
            vec![leaf("plain text", "a", 0, 1), leaf("plain text", "b", 2, 3)],
        ),
    );
}

#[test]
fn the_pass_goes_on_below_what_is_left() {
    expect(
        node(
            "alternatives",
            "",
            0,
            9,
            vec![
                node(
                    "sequence",
                    "",
                    0,
                    2,
                    vec![leaf("literal", "a", 0, 1), leaf("literal", "b", 1, 2)],
                ),
                leaf("literal", "c", 3, 4),
                node(
                    "indexed group<1>",
                    "",
                    5,
                    9,
                    vec![node(
                        "sequence",
                        "",
                        6,
                        8,
                        vec![leaf("literal", "d", 6, 7), leaf("any character", "", 7, 8)],
                    )],
                ),
            ],
        ),
        node(
            "alternatives",
            "",
            0,
            9,
            vec![
                leaf("plain text", "ab", 0, 2),
                leaf("plain text", "c", 3, 4),
                node(
                    "indexed group<1>",
                    "",
                    5,
                    9,
                    vec![node(
                        "sequence",
                        "",
                        6,
                        8,
                        vec![leaf("plain text", "d", 6, 7), leaf("any character", "", 7, 8)],
                    )],
                ),
            ],
        ),
    );
}

#[test]
fn what_lies_below_a_run_head_stays() {
    expect(
        node(
            "in set",
            "",
            0,
            4,
            vec![
                node("literal", "a", 0, 1, vec![leaf("literal", "x", 0, 1)]),
                node("literal", "b", 1, 2, vec![leaf("any character", "", 1, 2)]),
            ],
        ),
        node(
            "in set",
            "",
            0,
            4,
            vec![node("plain text", "ab", 0, 2, vec![leaf("plain text", "x", 0, 1)])],
        ),
    );
}

#[test]
fn merging_twice_is_merging_once() {
    let input = node(
        "sequence",
        "",
        0,
        8,
        vec![
            leaf("literal", "a", 0, 1),
            leaf("literal", "b", 1, 2),
            node(
                "alternatives",
                "",
                2,
                5,
                vec![leaf("literal", "c", 2, 3), leaf("", "", 3, 3), leaf("literal", "d", 4, 5)],
            ),
            node("sequence", "", 5, 7, vec![leaf("literal", "e", 5, 6), leaf("literal", "f", 6, 7)]),
            node("sequence", "", 7, 8, vec![leaf("", "x", 7, 8)]),
        ],
    );
    let once = merged(&input);
    let twice = merged(&once);
    assert!(same(&once, &twice));
    assert_eq!(once.children.len(), 4);
    assert_eq!(once.children[3].title, "sequence");
    assert!(once.children[3].children.is_empty());
}

#[test]
fn nodes_outside_the_subtree_are_untouched() {
    let shape = node(
        "root",
        "",
        0,
        0,
        vec![
            node("in set", "", 0, 2, vec![leaf("literal", "a", 0, 1), leaf("literal", "b", 1, 2)]),
            node("in set", "", 2, 4, vec![leaf("literal", "c", 2, 3), leaf("literal", "d", 3, 4)]),
        ],
    );
    let mut tree = grow(&shape);
    let second = tree.children(0)[1];
    merge_literal(&mut tree, second);
    let got = conv_tree(&tree, 0);
    assert!(same(&got.children[0], &shape.children[0]));
    assert!(same(
        &got.children[1],
        &node("in set", "", 2, 4, vec![leaf("plain text", "cd", 2, 4)])
    ));
    assert_eq!(tree.parent(second), Some(0));
}

#[test]
fn a_node_taken_out_loses_its_parent() {
    let shape = node(
        "in set",
        "",
        0,
        2,
        vec![leaf("literal", "a", 0, 1), leaf("literal", "b", 1, 2)],
    );
    let mut tree = grow(&shape);
    merge_literal(&mut tree, 0);
    assert_eq!(tree.children(0), &vec![1]);
    assert_eq!(tree.parent(1), Some(0));
    assert_eq!(tree.parent(2), None);
}

#[test]
fn spans_stay_nested_and_sequences_covered() {
    let got = merged(&node(
        "sequence",
        "",
        0,
        6,
        vec![
            leaf("literal", "a", 0, 1),
            leaf("literal", "b", 1, 2),
            node(
                "indexed group<1>",
                "",
                2,
                5,
                vec![leaf("literal", "c", 3, 4)],
            ),
            leaf("literal", "d", 5, 6),
        ],
    ));
    assert_eq!(got.title, "sequence");
    assert_eq!(got.children[0].start, got.start);
    assert_eq!(got.children.last().unwrap().end, got.end);
    for pair in got.children.windows(2) {
        assert_eq!(pair[0].end, pair[1].start);
    }
    for child in got.children.iter() {
        assert!(got.start <= child.start && child.start <= child.end && child.end <= got.end);
    }
    let group = &got.children[1];
    assert!(group.start <= group.children[0].start && group.children[0].end <= group.end);
}
