//! The constructs of a regular expression as the explanation sees them, and
//! the fixed table that gives each construct its title and its detail.
//!
//! A construct here is the head of a syntax node: its kind, the values the
//! label is made of, and its span in the pattern. What lies below the node
//! arrives as further constructs.
use crate::text::{decimal_digits, push_decimal, quote_char, quote_text, quoted_char, quoted_text};
use vstd::prelude::*;
use vstd::string::StringExecFns;

verus! {

/// A zero-width assertion.
pub enum AssertionKind {
    StartLine,
    EndLine,
    StartText,
    EndText,
    WordBoundary,
    NotWordBoundary,
}

/// A single flag.
pub enum Flag {
    CaseInsensitive,
    MultiLine,
    DotMatchesNewLine,
    SwapGreed,
    Unicode,
    IgnoreWhitespace,
}

/// One entry of a flag list: a flag, or the `-` that negates what follows.
pub enum FlagsItemKind {
    Negation,
    Flag(Flag),
}

/// A Perl class: `\d`, `\s` or `\w`.
pub enum ClassPerlKind {
    Digit,
    Space,
    Word,
}

/// An ASCII class such as `[:alpha:]`.
pub enum ClassAsciiKind {
    Alnum,
    Alpha,
    Ascii,
    Blank,
    Cntrl,
    Digit,
    Graph,
    Lower,
    Print,
    Punct,
    Space,
    Upper,
    Word,
    Xdigit,
}

/// The operator between name and value in `\p{name=value}`.
pub enum ClassUnicodeOpKind {
    Equal,
    Colon,
    NotEqual,
}

/// A Unicode class: `\pL`, `\p{Greek}` or `\p{scx=Greek}`.
pub enum ClassUnicodeKind {
    OneLetter(char),
    Named(String),
    NamedValue { op: ClassUnicodeOpKind, name: String, value: String },
}

/// The bounds of a counted repetition.
pub enum RepetitionRange {
    Exactly(u32),
    AtLeast(u32),
    Bounded(u32, u32),
}

/// A repetition operator.
pub enum RepetitionKind {
    ZeroOrOne,
    ZeroOrMore,
    OneOrMore,
    Range(RepetitionRange),
}

/// What kind of group a pair of parentheses is.
pub enum GroupKind {
    CaptureIndex(u32),
    CaptureName { name: String, index: u32 },
    NonCapturing(Vec<FlagsItemKind>),
}

/// The kind of a construct, with the values its label is made of.
#[allow(inconsistent_fields)]
pub enum ConstructKind {
    Empty,
    Flags(Vec<FlagsItemKind>),
    Literal(char),
    Dot,
    Assertion(AssertionKind),
    ClassUnicode { negated: bool, kind: ClassUnicodeKind },
    ClassPerl { negated: bool, kind: ClassPerlKind },
    ClassBracketed { negated: bool },
    Repetition { greedy: bool, kind: RepetitionKind },
    Group(GroupKind),
    Alternation,
    Concat,
}

/// A construct and the bytes of the pattern it was read from.
pub struct Construct {
    pub kind: ConstructKind,
    pub start: usize,
    pub end: usize,
}

/// The kind of an item inside a bracketed class.
#[allow(inconsistent_fields)]
pub enum ClassSetItemKind {
    Empty,
    Literal(char),
    Range(char, char),
    Ascii { negated: bool, kind: ClassAsciiKind },
    Unicode { negated: bool, kind: ClassUnicodeKind },
    Perl { negated: bool, kind: ClassPerlKind },
    Bracketed { negated: bool },
    Union,
}

/// An item inside a bracketed class and the bytes it was read from.
pub struct ClassSetItem {
    pub kind: ClassSetItemKind,
    pub start: usize,
    pub end: usize,
}

pub open spec fn assertion_name(kind: AssertionKind) -> Seq<char> {
    match kind {
        AssertionKind::StartLine => "StartLine"@,
        AssertionKind::EndLine => "EndLine"@,
        AssertionKind::StartText => "StartText"@,
        AssertionKind::EndText => "EndText"@,
        AssertionKind::WordBoundary => "WordBoundary"@,
        AssertionKind::NotWordBoundary => "NotWordBoundary"@,
    }
}

pub open spec fn flag_name(flag: Flag) -> Seq<char> {
    match flag {
        Flag::CaseInsensitive => "CaseInsensitive"@,
        Flag::MultiLine => "MultiLine"@,
        Flag::DotMatchesNewLine => "DotMatchesNewLine"@,
        Flag::SwapGreed => "SwapGreed"@,
        Flag::Unicode => "Unicode"@,
        Flag::IgnoreWhitespace => "IgnoreWhitespace"@,
    }
}

pub open spec fn flags_item_text(item: FlagsItemKind) -> Seq<char> {
    match item {
        FlagsItemKind::Negation => "Negation"@,
        FlagsItemKind::Flag(flag) => "Flag("@ + flag_name(flag) + ")"@,
    }
}

/// The first `n` entries of a flag list, separated by a comma and a space.
pub open spec fn flags_joined(items: Seq<FlagsItemKind>, n: int) -> Seq<char>
    decreases n,
{
    if n <= 0 {
        Seq::empty()
    } else if n == 1 {
        flags_item_text(items[0])
    } else {
        flags_joined(items, n - 1) + ", "@ + flags_item_text(items[n - 1])
    }
}

/// A flag list between square brackets.
pub open spec fn flags_text(items: Seq<FlagsItemKind>) -> Seq<char> {
    "["@ + flags_joined(items, items.len() as int) + "]"@
}

pub open spec fn perl_name(kind: ClassPerlKind) -> Seq<char> {
    match kind {
        ClassPerlKind::Digit => "Digit"@,
        ClassPerlKind::Space => "Space"@,
        ClassPerlKind::Word => "Word"@,
    }
}

pub open spec fn ascii_name(kind: ClassAsciiKind) -> Seq<char> {
    match kind {
        ClassAsciiKind::Alnum => "Alnum"@,
        ClassAsciiKind::Alpha => "Alpha"@,
        ClassAsciiKind::Ascii => "Ascii"@,
        ClassAsciiKind::Blank => "Blank"@,
        ClassAsciiKind::Cntrl => "Cntrl"@,
        ClassAsciiKind::Digit => "Digit"@,
        ClassAsciiKind::Graph => "Graph"@,
        ClassAsciiKind::Lower => "Lower"@,
        ClassAsciiKind::Print => "Print"@,
        ClassAsciiKind::Punct => "Punct"@,
        ClassAsciiKind::Space => "Space"@,
        ClassAsciiKind::Upper => "Upper"@,
        ClassAsciiKind::Word => "Word"@,
        ClassAsciiKind::Xdigit => "Xdigit"@,
    }
}

pub open spec fn unicode_op_name(op: ClassUnicodeOpKind) -> Seq<char> {
    match op {
        ClassUnicodeOpKind::Equal => "Equal"@,
        ClassUnicodeOpKind::Colon => "Colon"@,
        ClassUnicodeOpKind::NotEqual => "NotEqual"@,
    }
}

pub open spec fn unicode_text(kind: ClassUnicodeKind) -> Seq<char> {
    match kind {
        ClassUnicodeKind::OneLetter(c) => "OneLetter("@ + quoted_char(c) + ")"@,
        ClassUnicodeKind::Named(name) => "Named("@ + quoted_text(name@) + ")"@,
        ClassUnicodeKind::NamedValue { op, name, value } => "NamedValue { op: "@
            + unicode_op_name(op) + ", name: "@ + quoted_text(name@) + ", value: "@ + quoted_text(
            value@,
        ) + " }"@,
    }
}

/// The word put in front of the detail of a negated class.
pub open spec fn negation(negated: bool) -> Seq<char> {
    if negated {
        "not "@
    } else {
        Seq::empty()
    }
}

pub open spec fn bounds_text(kind: RepetitionKind) -> Seq<char> {
    match kind {
        RepetitionKind::ZeroOrOne => "0 or 1"@,
        RepetitionKind::ZeroOrMore => "0 or more"@,
        RepetitionKind::OneOrMore => "1 or more"@,
        RepetitionKind::Range(RepetitionRange::Exactly(m)) => "exactly "@ + decimal_digits(
            m as nat,
        ),
        RepetitionKind::Range(RepetitionRange::AtLeast(m)) => "at least "@ + decimal_digits(
            m as nat,
        ),
        RepetitionKind::Range(RepetitionRange::Bounded(m, n)) => decimal_digits(m as nat)
            + " to "@ + decimal_digits(n as nat),
    }
}

pub open spec fn set_title(negated: bool) -> Seq<char> {
    if negated {
        "not in set"@
    } else {
        "in set"@
    }
}

/// The title of a construct.
pub open spec fn title_of(kind: ConstructKind) -> Seq<char> {
    match kind {
        ConstructKind::Empty => "empty"@,
        ConstructKind::Flags(_) => "flags"@,
        ConstructKind::Literal(_) => "literal"@,
        ConstructKind::Dot => "any character"@,
        ConstructKind::Assertion(_) => "boundary"@,
        ConstructKind::ClassUnicode { .. } => "unicode class"@,
        ConstructKind::ClassPerl { .. } => "perl class"@,
        ConstructKind::ClassBracketed { negated } => set_title(negated),
        ConstructKind::Repetition { greedy, .. } => if greedy {
            "greedy repetition"@
        } else {
            "lazy repetition"@
        },
        ConstructKind::Group(GroupKind::CaptureIndex(i)) => "indexed group<"@ + decimal_digits(
            i as nat,
        ) + ">"@,
        ConstructKind::Group(GroupKind::CaptureName { name, .. }) => "named group<"@ + name@
            + ">"@,
        ConstructKind::Group(GroupKind::NonCapturing(_)) => "non-capturing group"@,
        ConstructKind::Alternation => "alternatives"@,
        ConstructKind::Concat => "sequence"@,
    }
}

/// The detail of a construct.
pub open spec fn detail_of(kind: ConstructKind) -> Seq<char> {
    match kind {
        ConstructKind::Empty => Seq::empty(),
        ConstructKind::Flags(items) => flags_text(items@),
        ConstructKind::Literal(c) => seq![c],
        ConstructKind::Dot => Seq::empty(),
        ConstructKind::Assertion(kind) => assertion_name(kind),
        ConstructKind::ClassUnicode { negated, kind } => negation(negated) + unicode_text(kind),
        ConstructKind::ClassPerl { negated, kind } => negation(negated) + perl_name(kind),
        ConstructKind::ClassBracketed { .. } => Seq::empty(),
        ConstructKind::Repetition { kind, .. } => bounds_text(kind),
        ConstructKind::Group(GroupKind::CaptureIndex(_)) => Seq::empty(),
        ConstructKind::Group(GroupKind::CaptureName { index, .. }) => "index: "@
            + decimal_digits(index as nat),
        ConstructKind::Group(GroupKind::NonCapturing(items)) => flags_text(items@),
        ConstructKind::Alternation => Seq::empty(),
        ConstructKind::Concat => Seq::empty(),
    }
}

/// An item of a bracketed class gets a node of its own; a union does not.
pub open spec fn item_has_node(kind: ClassSetItemKind) -> bool {
    !(kind is Union)
}

/// The title of a class item that gets a node.
pub open spec fn item_title_of(kind: ClassSetItemKind) -> Seq<char> {
    match kind {
        ClassSetItemKind::Empty => "empty"@,
        ClassSetItemKind::Literal(_) => "literal"@,
        ClassSetItemKind::Range(_, _) => "character range"@,
        ClassSetItemKind::Ascii { .. } => "ascii class"@,
        ClassSetItemKind::Unicode { .. } => "unicode class"@,
        ClassSetItemKind::Perl { .. } => "perl class"@,
        ClassSetItemKind::Bracketed { negated } => set_title(negated),
        ClassSetItemKind::Union => Seq::empty(),
    }
}

/// The detail of a class item that gets a node.
pub open spec fn item_detail_of(kind: ClassSetItemKind) -> Seq<char> {
    match kind {
        ClassSetItemKind::Empty => Seq::empty(),
        ClassSetItemKind::Literal(c) => seq![c],
        ClassSetItemKind::Range(first, last) => seq![first] + "-"@ + seq![last],
        ClassSetItemKind::Ascii { negated, kind } => negation(negated) + ascii_name(kind),
        ClassSetItemKind::Unicode { negated, kind } => negation(negated) + unicode_text(kind),
        ClassSetItemKind::Perl { negated, kind } => negation(negated) + perl_name(kind),
        ClassSetItemKind::Bracketed { .. } => Seq::empty(),
        ClassSetItemKind::Union => Seq::empty(),
    }
}

fn push_assertion_name(out: &mut String, kind: &AssertionKind)
    ensures
        final(out)@ == old(out)@ + assertion_name(*kind),
{
    match kind {
        AssertionKind::StartLine => out.append("StartLine"),
        AssertionKind::EndLine => out.append("EndLine"),
        AssertionKind::StartText => out.append("StartText"),
        AssertionKind::EndText => out.append("EndText"),
        AssertionKind::WordBoundary => out.append("WordBoundary"),
        AssertionKind::NotWordBoundary => out.append("NotWordBoundary"),
    }
}

fn push_flag_name(out: &mut String, flag: &Flag)
    ensures
        final(out)@ == old(out)@ + flag_name(*flag),
{
    match flag {
        Flag::CaseInsensitive => out.append("CaseInsensitive"),
        Flag::MultiLine => out.append("MultiLine"),
        Flag::DotMatchesNewLine => out.append("DotMatchesNewLine"),
        Flag::SwapGreed => out.append("SwapGreed"),
        Flag::Unicode => out.append("Unicode"),
        Flag::IgnoreWhitespace => out.append("IgnoreWhitespace"),
    }
}

fn push_flags_item(out: &mut String, item: &FlagsItemKind)
    ensures
        final(out)@ == old(out)@ + flags_item_text(*item),
{
    match item {
        FlagsItemKind::Negation => out.append("Negation"),
        FlagsItemKind::Flag(flag) => {
            out.append("Flag(");
            push_flag_name(out, flag);
            out.append(")");
            assert(old(out)@ + "Flag("@ + flag_name(*flag) + ")"@ =~= old(out)@ + ("Flag("@
                + flag_name(*flag) + ")"@));
        },
    }
}

/// Renders a flag list between square brackets, the entries separated by a
/// comma and a space.
pub fn flags_list(items: &Vec<FlagsItemKind>) -> (text: String)
    ensures
        text@ == flags_text(items@),
{
    let mut text = String::from_str("[");
    let mut i: usize = 0;
    while i < items.len()
        invariant
            i <= items.len(),
            text@ == "["@ + flags_joined(items@, i as int),
        decreases items.len() - i,
    {
        let ghost before = text@;
        if i > 0 {
            text.append(", ");
        }
        push_flags_item(&mut text, &items[i]);
        proof {
            let item = flags_item_text(items@[i as int]);
            if i == 0 {
                assert(flags_joined(items@, 0) =~= Seq::<char>::empty());
                assert(before + item =~= "["@ + item);
            } else {
                assert(before + ", "@ + item =~= "["@ + (flags_joined(items@, i as int) + ", "@
                    + item));
            }
        }
        i += 1;
    }
    text.append("]");
    text
}

fn push_perl_name(out: &mut String, kind: &ClassPerlKind)
    ensures
        final(out)@ == old(out)@ + perl_name(*kind),
{
    match kind {
        ClassPerlKind::Digit => out.append("Digit"),
        ClassPerlKind::Space => out.append("Space"),
        ClassPerlKind::Word => out.append("Word"),
    }
}

fn push_ascii_name(out: &mut String, kind: &ClassAsciiKind)
    ensures
        final(out)@ == old(out)@ + ascii_name(*kind),
{
    match kind {
        ClassAsciiKind::Alnum => out.append("Alnum"),
        ClassAsciiKind::Alpha => out.append("Alpha"),
        ClassAsciiKind::Ascii => out.append("Ascii"),
        ClassAsciiKind::Blank => out.append("Blank"),
        ClassAsciiKind::Cntrl => out.append("Cntrl"),
        ClassAsciiKind::Digit => out.append("Digit"),
        ClassAsciiKind::Graph => out.append("Graph"),
        ClassAsciiKind::Lower => out.append("Lower"),
        ClassAsciiKind::Print => out.append("Print"),
        ClassAsciiKind::Punct => out.append("Punct"),
        ClassAsciiKind::Space => out.append("Space"),
        ClassAsciiKind::Upper => out.append("Upper"),
        ClassAsciiKind::Word => out.append("Word"),
        ClassAsciiKind::Xdigit => out.append("Xdigit"),
    }
}

fn push_unicode_op_name(out: &mut String, op: &ClassUnicodeOpKind)
    ensures
        final(out)@ == old(out)@ + unicode_op_name(*op),
{
    match op {
        ClassUnicodeOpKind::Equal => out.append("Equal"),
        ClassUnicodeOpKind::Colon => out.append("Colon"),
        ClassUnicodeOpKind::NotEqual => out.append("NotEqual"),
    }
}

fn push_unicode_text(out: &mut String, kind: &ClassUnicodeKind)
    ensures
        final(out)@ == old(out)@ + unicode_text(*kind),
{
    match kind {
        ClassUnicodeKind::OneLetter(c) => {
            let quoted = quote_char(*c);
            out.append("OneLetter(");
            out.append(quoted.as_str());
            out.append(")");
            assert(old(out)@ + "OneLetter("@ + quoted_char(*c) + ")"@ =~= old(out)@ + (
            "OneLetter("@ + quoted_char(*c) + ")"@));
        },
        ClassUnicodeKind::Named(name) => {
            let quoted = quote_text(name.as_str());
            out.append("Named(");
            out.append(quoted.as_str());
            out.append(")");
            assert(old(out)@ + "Named("@ + quoted_text(name@) + ")"@ =~= old(out)@ + ("Named("@
                + quoted_text(name@) + ")"@));
        },
        ClassUnicodeKind::NamedValue { op, name, value } => {
            let quoted_name = quote_text(name.as_str());
            let quoted_value = quote_text(value.as_str());
            out.append("NamedValue { op: ");
            push_unicode_op_name(out, op);
            out.append(", name: ");
            out.append(quoted_name.as_str());
            out.append(", value: ");
            out.append(quoted_value.as_str());
            out.append(" }");
            assert(old(out)@ + "NamedValue { op: "@ + unicode_op_name(*op) + ", name: "@
                + quoted_text(name@) + ", value: "@ + quoted_text(value@) + " }"@ =~= old(out)@
                + ("NamedValue { op: "@ + unicode_op_name(*op) + ", name: "@ + quoted_text(name@)
                + ", value: "@ + quoted_text(value@) + " }"@));
        },
    }
}

fn negation_text(negated: bool) -> (text: String)
    ensures
        text@ == negation(negated),
{
    if negated {
        String::from_str("not ")
    } else {
        String::new()
    }
}

fn bounds(kind: &RepetitionKind) -> (text: String)
    ensures
        text@ == bounds_text(*kind),
{
    match kind {
        RepetitionKind::ZeroOrOne => String::from_str("0 or 1"),
        RepetitionKind::ZeroOrMore => String::from_str("0 or more"),
        RepetitionKind::OneOrMore => String::from_str("1 or more"),
        RepetitionKind::Range(RepetitionRange::Exactly(m)) => {
            let mut text = String::from_str("exactly ");
            push_decimal(&mut text, *m);
            text
        },
        RepetitionKind::Range(RepetitionRange::AtLeast(m)) => {
            let mut text = String::from_str("at least ");
            push_decimal(&mut text, *m);
            text
        },
        RepetitionKind::Range(RepetitionRange::Bounded(m, n)) => {
            let mut text = String::new();
            push_decimal(&mut text, *m);
            text.append(" to ");
            push_decimal(&mut text, *n);
            assert(Seq::<char>::empty() + decimal_digits(*m as nat) + " to "@ + decimal_digits(
                *n as nat,
            ) =~= decimal_digits(*m as nat) + " to "@ + decimal_digits(*n as nat));
            text
        },
    }
}

fn set_title_text(negated: bool) -> (text: String)
    ensures
        text@ == set_title(negated),
{
    if negated {
        String::from_str("not in set")
    } else {
        String::from_str("in set")
    }
}

fn single(c: char) -> (text: String)
    ensures
        text@ == seq![c],
{
    let mut text = String::new();
    text.push(c);
    assert(text@ =~= seq![c]);
    text
}

/// Looks a construct up in the classification table.
pub fn label(kind: &ConstructKind) -> (pair: (String, String))
    ensures
        pair.0@ == title_of(*kind),
        pair.1@ == detail_of(*kind),
{
    match kind {
        ConstructKind::Empty => (String::from_str("empty"), String::new()),
        ConstructKind::Flags(items) => (String::from_str("flags"), flags_list(items)),
        ConstructKind::Literal(c) => (String::from_str("literal"), single(*c)),
        ConstructKind::Dot => (String::from_str("any character"), String::new()),
        ConstructKind::Assertion(kind) => {
            let mut detail = String::new();
            push_assertion_name(&mut detail, kind);
            assert(Seq::<char>::empty() + assertion_name(*kind) =~= assertion_name(*kind));
            (String::from_str("boundary"), detail)
        },
        ConstructKind::ClassUnicode { negated, kind } => {
            let mut detail = negation_text(*negated);
            push_unicode_text(&mut detail, kind);
            (String::from_str("unicode class"), detail)
        },
        ConstructKind::ClassPerl { negated, kind } => {
            let mut detail = negation_text(*negated);
            push_perl_name(&mut detail, kind);
            (String::from_str("perl class"), detail)
        },
        ConstructKind::ClassBracketed { negated } => (set_title_text(*negated), String::new()),
        ConstructKind::Repetition { greedy, kind } => {
            let title = if *greedy {
                String::from_str("greedy repetition")
            } else {
                String::from_str("lazy repetition")
            };
            (title, bounds(kind))
        },
        ConstructKind::Group(GroupKind::CaptureIndex(i)) => {
            let mut title = String::from_str("indexed group<");
            push_decimal(&mut title, *i);
            title.append(">");
            (title, String::new())
        },
        ConstructKind::Group(GroupKind::CaptureName { name, index }) => {
            let mut title = String::from_str("named group<");
            title.append(name.as_str());
            title.append(">");
            let mut detail = String::from_str("index: ");
            push_decimal(&mut detail, *index);
            (title, detail)
        },
        ConstructKind::Group(GroupKind::NonCapturing(items)) => (
            String::from_str("non-capturing group"),
            flags_list(items),
        ),
        ConstructKind::Alternation => (String::from_str("alternatives"), String::new()),
        ConstructKind::Concat => (String::from_str("sequence"), String::new()),
    }
}

/// Tells whether an item of a bracketed class gets a node of its own.
pub fn item_gets_node(kind: &ClassSetItemKind) -> (yes: bool)
    ensures
        yes == item_has_node(*kind),
{
    match kind {
        ClassSetItemKind::Union => false,
        _ => true,
    }
}

/// Looks a class item up in the classification table. A union gets no node,
/// and so no label.
pub fn item_label(kind: &ClassSetItemKind) -> (pair: Option<(String, String)>)
    ensures
        pair is Some == item_has_node(*kind),
        pair matches Some(p) ==> p.0@ == item_title_of(*kind) && p.1@ == item_detail_of(*kind),
{
    match kind {
        ClassSetItemKind::Empty => Some((String::from_str("empty"), String::new())),
        ClassSetItemKind::Literal(c) => Some((String::from_str("literal"), single(*c))),
        ClassSetItemKind::Range(first, last) => {
            let mut detail = single(*first);
            detail.append("-");
            detail.push(*last);
            assert(seq![*first] + "-"@ + seq![*last] =~= (seq![*first] + "-"@).push(*last));
            Some((String::from_str("character range"), detail))
        },
        ClassSetItemKind::Ascii { negated, kind } => {
            let mut detail = negation_text(*negated);
            push_ascii_name(&mut detail, kind);
            Some((String::from_str("ascii class"), detail))
        },
        ClassSetItemKind::Unicode { negated, kind } => {
            let mut detail = negation_text(*negated);
            push_unicode_text(&mut detail, kind);
            Some((String::from_str("unicode class"), detail))
        },
        ClassSetItemKind::Perl { negated, kind } => {
            let mut detail = negation_text(*negated);
            push_perl_name(&mut detail, kind);
            Some((String::from_str("perl class"), detail))
        },
        ClassSetItemKind::Bracketed { negated } => Some(
            (set_title_text(*negated), String::new()),
        ),
        ClassSetItemKind::Union => None,
    }
}

} // verus!
