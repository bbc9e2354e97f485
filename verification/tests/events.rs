use regex_engine::cppbridge::{conv_tree, regex_parse, TreeRecord};
use regex_engine::parse::{parse, Event, MyAstVisitor};
use regex_engine::syntax::{
    item_gets_node, ClassSetItem, ClassSetItemKind, Construct, ConstructKind, GroupKind,
    RepetitionKind,
};

fn construct(kind: ConstructKind, start: usize, end: usize) -> Construct {
    Construct { kind, start, end }
}

fn literal(c: char, start: usize) -> Construct {
    construct(ConstructKind::Literal(c), start, start + 1)
}

fn enter_leave(v: &mut MyAstVisitor, c: Construct) {
    v.visit_pre(&c);
    v.visit_post(&c);
}

fn done(v: MyAstVisitor) -> TreeRecord {
    let (tree, top) = v.finish();
    assert_eq!(tree.parent(top), None);
    assert_eq!(tree.root(top), top);
    conv_tree(&tree, top)
}

#[test]
fn a_new_builder_starts_at_the_root() {
    let mut v = MyAstVisitor::new();
    v.start();
    assert!(!v.has_parent());
    v.visit_pre(&construct(ConstructKind::Dot, 0, 1));
    assert!(v.has_parent());
    v.visit_post(&construct(ConstructKind::Dot, 0, 1));
    assert!(!v.has_parent());
}

#[test]
fn three_literals_read_as_one_text() {
    let mut v = MyAstVisitor::new();
    let seq = construct(ConstructKind::Concat, 0, 3);
    v.visit_pre(&seq);
    enter_leave(&mut v, literal('a', 0));
    enter_leave(&mut v, literal('b', 1));
    enter_leave(&mut v, literal('c', 2));
    v.visit_post(&seq);
    let top = done(v);
    assert_eq!(top.title, "plain text");
    assert_eq!(top.content, "abc");
    assert_eq!((top.start, top.end), (0, 3));
    assert!(top.children.is_empty());
}

#[test]
fn two_branches_stay_apart() {
    let mut v = MyAstVisitor::new();
    let alt = construct(ConstructKind::Alternation, 0, 3);
    v.visit_pre(&alt);
    enter_leave(&mut v, literal('a', 0));
    v.visit_alternation_in();
    enter_leave(&mut v, literal('b', 2));
    v.visit_post(&alt);
    let top = done(v);
    assert_eq!(top.title, "alternatives");
    assert_eq!(top.children.len(), 2);
    assert_eq!(top.children[0].title, "plain text");
    assert_eq!(top.children[0].content, "a");
    assert_eq!((top.children[0].start, top.children[0].end), (0, 1));
    assert_eq!(top.children[1].title, "plain text");
    assert_eq!(top.children[1].content, "b");
    assert_eq!((top.children[1].start, top.children[1].end), (2, 3));
}

#[test]
fn an_empty_construct_is_explained_as_empty() {
    let mut v = MyAstVisitor::new();
    enter_leave(&mut v, construct(ConstructKind::Empty, 0, 0));
    let top = done(v);
    assert_eq!(top.title, "empty");
    assert_eq!(top.content, "");
    assert_eq!((top.start, top.end), (0, 0));
    assert!(top.children.is_empty());
}

#[test]
fn nothing_entered_gives_the_placeholder() {
    let top = done(MyAstVisitor::new());
    assert_eq!(top.title, "empty");
    assert_eq!(top.content, "");
    assert_eq!((top.start, top.end), (0, 0));
    assert!(top.children.is_empty());
}

#[test]
fn a_repeated_literal() {
    let mut v = MyAstVisitor::new();
    let rep = construct(
        ConstructKind::Repetition { greedy: true, kind: RepetitionKind::OneOrMore },
        0,
        2,
    );
    v.visit_pre(&rep);
    enter_leave(&mut v, literal('a', 0));
    v.visit_post(&rep);
    let top = done(v);
    assert_eq!(top.title, "greedy repetition");
    assert_eq!(top.content, "1 or more");
    assert_eq!((top.start, top.end), (0, 2));
    assert_eq!(top.children.len(), 1);
    assert_eq!(top.children[0].title, "plain text");
    assert_eq!(top.children[0].content, "a");
    assert_eq!((top.children[0].start, top.children[0].end), (0, 1));
}

#[test]
fn a_named_group_around_text() {
    let mut v = MyAstVisitor::new();
    let group = construct(
        ConstructKind::Group(GroupKind::CaptureName { name: "tag".to_string(), index: 1 }),
        0,
        11,
    );
    let seq = construct(ConstructKind::Concat, 8, 10);
    v.visit_pre(&group);
    v.visit_pre(&seq);
    enter_leave(&mut v, literal('a', 8));
    enter_leave(&mut v, literal('b', 9));
    v.visit_post(&seq);
    v.visit_post(&group);
    let top = done(v);
    assert_eq!(top.title, "named group<tag>");
    assert_eq!(top.content, "index: 1");
    assert_eq!(top.children.len(), 1);
    assert_eq!(top.children[0].title, "plain text");
    assert_eq!(top.children[0].content, "ab");
    assert_eq!((top.children[0].start, top.children[0].end), (8, 10));
}

#[test]
fn a_single_literal_at_the_top_becomes_text() {
    let mut v = MyAstVisitor::new();
    enter_leave(&mut v, literal('z', 0));
    let top = done(v);
    assert_eq!(top.title, "plain text");
    assert_eq!(top.content, "z");
    assert_eq!((top.start, top.end), (0, 1));
}

#[test]
fn only_the_first_top_node_is_handed_out() {
    let mut v = MyAstVisitor::new();
    enter_leave(&mut v, construct(ConstructKind::Dot, 0, 1));
    enter_leave(&mut v, construct(ConstructKind::Empty, 1, 1));
    let top = done(v);
    assert_eq!(top.title, "any character");
}

#[test]
fn a_union_is_transparent() {
    let mut v = MyAstVisitor::new();
    let class = construct(ConstructKind::ClassBracketed { negated: false }, 0, 6);
    let union = ClassSetItem { kind: ClassSetItemKind::Union, start: 1, end: 5 };
    let range = ClassSetItem { kind: ClassSetItemKind::Range('a', 'z'), start: 1, end: 4 };
    let dot = ClassSetItem { kind: ClassSetItemKind::Literal('.'), start: 4, end: 5 };
    v.visit_pre(&class);
    v.visit_class_set_item_pre(&union);
    v.visit_class_set_item_pre(&range);
    v.visit_class_set_item_post(&range);
    v.visit_class_set_item_pre(&dot);
    v.visit_class_set_item_post(&dot);
    v.visit_class_set_item_post(&union);
    v.visit_post(&class);
    assert!(!v.has_parent());
    let top = done(v);
    assert_eq!(top.title, "in set");
    assert_eq!(top.children.len(), 2);
    assert_eq!(top.children[0].title, "character range");
    assert_eq!(top.children[0].content, "a-z");
    assert_eq!((top.children[0].start, top.children[0].end), (1, 4));
    assert_eq!(top.children[1].title, "plain text");
    assert_eq!(top.children[1].content, ".");
}

#[test]
fn set_operations_add_no_node() {
    let mut v = MyAstVisitor::new();
    let class = construct(ConstructKind::ClassBracketed { negated: true }, 0, 8);
    let a = ClassSetItem { kind: ClassSetItemKind::Literal('a'), start: 2, end: 3 };
    let b = ClassSetItem { kind: ClassSetItemKind::Literal('b'), start: 5, end: 6 };
    v.visit_pre(&class);
    v.visit_class_set_binary_op_pre();
    v.visit_class_set_item_pre(&a);
    v.visit_class_set_item_post(&a);
    v.visit_class_set_binary_op_in();
    v.visit_class_set_item_pre(&b);
    v.visit_class_set_item_post(&b);
    v.visit_class_set_binary_op_post();
    v.visit_post(&class);
    let top = done(v);
    assert_eq!(top.title, "not in set");
    assert_eq!(top.children.len(), 1);
    assert_eq!(top.children[0].title, "plain text");
    assert_eq!(top.children[0].content, "ab");
    assert_eq!((top.children[0].start, top.children[0].end), (2, 6));
}

#[test]
fn open_constructs_are_taken_as_left_at_the_end() {
    let mut v = MyAstVisitor::new();
    v.visit_pre(&construct(ConstructKind::Group(GroupKind::CaptureIndex(1)), 0, 3));
    v.visit_pre(&literal('a', 1));
    assert!(v.has_parent());
    let top = done(v);
    assert_eq!(top.title, "indexed group<1>");
    assert_eq!(top.children.len(), 1);
    assert_eq!(top.children[0].title, "plain text");
    assert_eq!(top.children[0].content, "a");
}

#[test]
fn only_a_union_gets_no_node() {
    assert!(!item_gets_node(&ClassSetItemKind::Union));
    assert!(item_gets_node(&ClassSetItemKind::Empty));
    assert!(item_gets_node(&ClassSetItemKind::Literal('a')));
    assert!(item_gets_node(&ClassSetItemKind::Bracketed { negated: true }));
}

#[test]
fn events_build_the_same_tree_as_the_calls() {
    let events = vec![
        Event::Pre(construct(ConstructKind::Alternation, 0, 6)),
        Event::Pre(construct(ConstructKind::Concat, 0, 2)),
        Event::Pre(literal('a', 0)),
        Event::Post,
        Event::Pre(literal('b', 1)),
        Event::Post,
        Event::Post,
        Event::AlternationIn,
        Event::Pre(construct(ConstructKind::ClassBracketed { negated: false }, 3, 6)),
        Event::ClassSetBinaryOpPre,
        Event::ClassSetItemPre(ClassSetItem { kind: ClassSetItemKind::Union, start: 4, end: 5 }),
        Event::ClassSetItemPre(ClassSetItem { kind: ClassSetItemKind::Literal('c'), start: 4, end: 5 }),
        Event::ClassSetItemPost(ClassSetItem { kind: ClassSetItemKind::Literal('c'), start: 4, end: 5 }),
        Event::ClassSetItemPost(ClassSetItem { kind: ClassSetItemKind::Union, start: 4, end: 5 }),
        Event::ClassSetBinaryOpIn,
        Event::ClassSetBinaryOpPost,
        Event::Post,
        Event::Post,
    ];
    let (tree, top) = parse(&events).ok().unwrap();
    assert_eq!(tree.parent(top), None);
    let record = conv_tree(&tree, top);
    assert_eq!(record.title, "alternatives");
    assert_eq!(record.children.len(), 2);
    assert_eq!(record.children[0].title, "plain text");
    assert_eq!(record.children[0].content, "ab");
    assert_eq!(record.children[1].title, "in set");
    assert_eq!(record.children[1].children[0].title, "plain text");
    assert_eq!(record.children[1].children[0].content, "c");
    let again = regex_parse(&events).ok().unwrap();
    assert_eq!(again.title, "alternatives");
    assert_eq!(again.children[0].content, "ab");
}

#[test]
fn no_events_give_the_placeholder() {
    let record = regex_parse(&Vec::new()).ok().unwrap();
    assert_eq!(record.title, "empty");
    assert_eq!((record.start, record.end), (0, 0));
}

#[test]
fn leaving_what_was_not_entered_is_a_fault() {
    let lone = vec![Event::Post];
    assert_eq!(parse(&lone).err().map(|f| f.at), Some(0));
    let late = vec![
        Event::Pre(literal('a', 0)),
        Event::Post,
        Event::AlternationIn,
        Event::Post,
        Event::Pre(literal('b', 1)),
    ];
    assert_eq!(parse(&late).err().map(|f| f.at), Some(3));
    assert_eq!(regex_parse(&late).err().map(|f| f.at), Some(3));
    let item = vec![Event::ClassSetItemPost(ClassSetItem {
        kind: ClassSetItemKind::Literal('a'),
        start: 0,
        end: 1,
    })];
    assert_eq!(parse(&item).err().map(|f| f.at), Some(0));
    let union = vec![Event::ClassSetItemPost(ClassSetItem {
        kind: ClassSetItemKind::Union,
        start: 0,
        end: 1,
    })];
    assert!(parse(&union).is_ok());
}
