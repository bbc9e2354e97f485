use regex_engine::syntax::{
    flags_list, item_label, label, AssertionKind, ClassAsciiKind, ClassPerlKind, ClassSetItemKind,
    ClassUnicodeKind, ClassUnicodeOpKind, ConstructKind, Flag, FlagsItemKind, GroupKind,
    RepetitionKind, RepetitionRange,
};
use regex_engine::text::{decimal, push_decimal, reads, text_of};

fn pair(kind: ConstructKind) -> (String, String) {
    label(&kind)
}

fn same(kind: ConstructKind, title: &str, detail: &str) {
    let (t, d) = pair(kind);
    assert_eq!(t, title);
    assert_eq!(d, detail);
}

#[test]
fn decimal_renders_numbers() {
    assert_eq!(decimal(0), "0");
    assert_eq!(decimal(7), "7");
    assert_eq!(decimal(10), "10");
    assert_eq!(decimal(1234567890), "1234567890");
    assert_eq!(decimal(u32::MAX), "4294967295");
    let mut s = String::from("n=");
    push_decimal(&mut s, 305);
    assert_eq!(s, "n=305");
}

#[test]
fn reads_compares_whole_text() {
    assert!(reads(&text_of("literal"), "literal"));
    assert!(!reads(&text_of("literal"), "litera"));
    assert!(!reads(&text_of(""), "literal"));
    assert!(reads(&String::new(), ""));
}

#[test]
fn simple_constructs() {
    same(ConstructKind::Empty, "empty", "");
    same(ConstructKind::Dot, "any character", "");
    same(ConstructKind::Alternation, "alternatives", "");
    same(ConstructKind::Concat, "sequence", "");
    same(ConstructKind::Literal('x'), "literal", "x");
    same(ConstructKind::Literal('é'), "literal", "é");
}

#[test]
fn assertions() {
    same(ConstructKind::Assertion(AssertionKind::StartLine), "boundary", "StartLine");
    same(ConstructKind::Assertion(AssertionKind::EndLine), "boundary", "EndLine");
    same(ConstructKind::Assertion(AssertionKind::StartText), "boundary", "StartText");
    same(ConstructKind::Assertion(AssertionKind::EndText), "boundary", "EndText");
    same(ConstructKind::Assertion(AssertionKind::WordBoundary), "boundary", "WordBoundary");
    same(ConstructKind::Assertion(AssertionKind::NotWordBoundary), "boundary", "NotWordBoundary");
}

#[test]
fn flag_lists() {
    assert_eq!(flags_list(&vec![]), "[]");
    assert_eq!(flags_list(&vec![FlagsItemKind::Negation]), "[Negation]");
    let all = vec![
        FlagsItemKind::Flag(Flag::CaseInsensitive),
        FlagsItemKind::Flag(Flag::MultiLine),
        FlagsItemKind::Flag(Flag::DotMatchesNewLine),
        FlagsItemKind::Negation,
        FlagsItemKind::Flag(Flag::SwapGreed),
        FlagsItemKind::Flag(Flag::Unicode),
        FlagsItemKind::Flag(Flag::IgnoreWhitespace),
    ];
    assert_eq!(
        flags_list(&all),
        "[Flag(CaseInsensitive), Flag(MultiLine), Flag(DotMatchesNewLine), Negation, \
         Flag(SwapGreed), Flag(Unicode), Flag(IgnoreWhitespace)]"
    );
    same(
        ConstructKind::Flags(vec![FlagsItemKind::Flag(Flag::Unicode), FlagsItemKind::Flag(Flag::CaseInsensitive)]),
        "flags",
        "[Flag(Unicode), Flag(CaseInsensitive)]",
    );
}

#[test]
fn classes() {
    same(ConstructKind::ClassBracketed { negated: false }, "in set", "");
    same(ConstructKind::ClassBracketed { negated: true }, "not in set", "");
    same(ConstructKind::ClassPerl { negated: false, kind: ClassPerlKind::Digit }, "perl class", "Digit");
    same(ConstructKind::ClassPerl { negated: true, kind: ClassPerlKind::Space }, "perl class", "not Space");
    same(ConstructKind::ClassPerl { negated: false, kind: ClassPerlKind::Word }, "perl class", "Word");
    same(
        ConstructKind::ClassUnicode { negated: false, kind: ClassUnicodeKind::OneLetter('L') },
        "unicode class",
        "OneLetter('L')",
    );
    same(
        ConstructKind::ClassUnicode { negated: true, kind: ClassUnicodeKind::Named("Greek".to_string()) },
        "unicode class",
        "not Named(\"Greek\")",
    );
    same(
        ConstructKind::ClassUnicode {
            negated: false,
            kind: ClassUnicodeKind::NamedValue {
                op: ClassUnicodeOpKind::Equal,
                name: "scx".to_string(),
                value: "Greek".to_string(),
            },
        },
        "unicode class",
        "NamedValue { op: Equal, name: \"scx\", value: \"Greek\" }",
    );
    same(
        ConstructKind::ClassUnicode {
            negated: false,
            kind: ClassUnicodeKind::NamedValue {
                op: ClassUnicodeOpKind::NotEqual,
                name: "a\"b".to_string(),
                value: "c\\d".to_string(),
            },
        },
        "unicode class",
        "NamedValue { op: NotEqual, name: \"a\\\"b\", value: \"c\\\\d\" }",
    );
    same(
        ConstructKind::ClassUnicode {
            negated: false,
            kind: ClassUnicodeKind::NamedValue {
                op: ClassUnicodeOpKind::Colon,
                name: "n".to_string(),
                value: "v".to_string(),
            },
        },
        "unicode class",
        "NamedValue { op: Colon, name: \"n\", value: \"v\" }",
    );
}

#[test]
fn quoting_escapes_what_the_formatter_escapes() {
    same(
        ConstructKind::ClassUnicode { negated: false, kind: ClassUnicodeKind::OneLetter('\'') },
        "unicode class",
        "OneLetter('\\'')",
    );
    same(
        ConstructKind::ClassUnicode { negated: false, kind: ClassUnicodeKind::Named("a\nb".to_string()) },
        "unicode class",
        "Named(\"a\\nb\")",
    );
}

#[test]
fn repetitions() {
    let rep = |greedy, kind| ConstructKind::Repetition { greedy, kind };
    same(rep(true, RepetitionKind::ZeroOrOne), "greedy repetition", "0 or 1");
    same(rep(true, RepetitionKind::ZeroOrMore), "greedy repetition", "0 or more");
    same(rep(true, RepetitionKind::OneOrMore), "greedy repetition", "1 or more");
    same(rep(false, RepetitionKind::OneOrMore), "lazy repetition", "1 or more");
    same(rep(true, RepetitionKind::Range(RepetitionRange::Exactly(3))), "greedy repetition", "exactly 3");
    same(rep(false, RepetitionKind::Range(RepetitionRange::AtLeast(12))), "lazy repetition", "at least 12");
    same(rep(true, RepetitionKind::Range(RepetitionRange::Bounded(2, 40))), "greedy repetition", "2 to 40");
    same(rep(true, RepetitionKind::Range(RepetitionRange::Bounded(0, 0))), "greedy repetition", "0 to 0");
}

#[test]
fn groups() {
    same(ConstructKind::Group(GroupKind::CaptureIndex(1)), "indexed group<1>", "");
    same(ConstructKind::Group(GroupKind::CaptureIndex(27)), "indexed group<27>", "");
    same(
        ConstructKind::Group(GroupKind::CaptureName { name: "tag".to_string(), index: 3 }),
        "named group<tag>",
        "index: 3",
    );
    same(ConstructKind::Group(GroupKind::NonCapturing(vec![])), "non-capturing group", "[]");
    same(
        ConstructKind::Group(GroupKind::NonCapturing(vec![
            FlagsItemKind::Flag(Flag::CaseInsensitive),
            FlagsItemKind::Negation,
            FlagsItemKind::Flag(Flag::MultiLine),
        ])),
        "non-capturing group",
        "[Flag(CaseInsensitive), Negation, Flag(MultiLine)]",
    );
}

fn item(kind: ClassSetItemKind) -> Option<(String, String)> {
    item_label(&kind)
}

fn some(title: &str, detail: &str) -> Option<(String, String)> {
    Some((title.to_string(), detail.to_string()))
}

#[test]
fn class_items() {
    assert_eq!(item(ClassSetItemKind::Empty), some("empty", ""));
    assert_eq!(item(ClassSetItemKind::Literal('q')), some("literal", "q"));
    assert_eq!(item(ClassSetItemKind::Range('a', 'z')), some("character range", "a-z"));
    assert_eq!(item(ClassSetItemKind::Range(' ', ' ')), some("character range", " - "));
    assert_eq!(
        item(ClassSetItemKind::Ascii { negated: false, kind: ClassAsciiKind::Alpha }),
        some("ascii class", "Alpha")
    );
    assert_eq!(
        item(ClassSetItemKind::Ascii { negated: true, kind: ClassAsciiKind::Xdigit }),
        some("ascii class", "not Xdigit")
    );
    assert_eq!(
        item(ClassSetItemKind::Unicode { negated: false, kind: ClassUnicodeKind::OneLetter('N') }),
        some("unicode class", "OneLetter('N')")
    );
    assert_eq!(
        item(ClassSetItemKind::Perl { negated: true, kind: ClassPerlKind::Word }),
        some("perl class", "not Word")
    );
    assert_eq!(item(ClassSetItemKind::Bracketed { negated: false }), some("in set", ""));
    assert_eq!(item(ClassSetItemKind::Bracketed { negated: true }), some("not in set", ""));
}

#[test]
fn a_union_has_no_label() {
    assert_eq!(item(ClassSetItemKind::Union), None);
}

#[test]
fn ascii_class_names() {
    let kinds = vec![
        (ClassAsciiKind::Alnum, "Alnum"),
        (ClassAsciiKind::Alpha, "Alpha"),
        (ClassAsciiKind::Ascii, "Ascii"),
        (ClassAsciiKind::Blank, "Blank"),
        (ClassAsciiKind::Cntrl, "Cntrl"),
        (ClassAsciiKind::Digit, "Digit"),
        (ClassAsciiKind::Graph, "Graph"),
        (ClassAsciiKind::Lower, "Lower"),
        (ClassAsciiKind::Print, "Print"),
        (ClassAsciiKind::Punct, "Punct"),
        (ClassAsciiKind::Space, "Space"),
        (ClassAsciiKind::Upper, "Upper"),
        (ClassAsciiKind::Word, "Word"),
        (ClassAsciiKind::Xdigit, "Xdigit"),
    ];
    for (kind, name) in kinds {
        assert_eq!(item(ClassSetItemKind::Ascii { negated: false, kind }), some("ascii class", name));
    }
}
