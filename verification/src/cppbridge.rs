//! The boundary to the host: the explanation tree as a plain record, and
//! the requests that are passed on to the matching engine.
use crate::outline::{closed, finished, Explanation, Label};
use crate::parse::{outline, parse, walked, Event, ProtocolFault, TreeItem};
use crate::tree::TreeNode;
use vstd::prelude::*;

verus! {

/// A node of the explanation tree as the host gets it: a copy that shares
/// nothing with the tree it was made from.
pub struct TreeRecord {
    pub title: String,
    pub content: String,
    pub start: u32,
    pub end: u32,
    pub children: Vec<TreeRecord>,
}

/// The explanation a record stands for.
pub open spec fn record_outline(record: TreeRecord) -> Explanation
    decreases record,
{
    Explanation {
        label: Label {
            title: record.title@,
            detail: record.content@,
            start: record.start,
            end: record.end,
        },
        children: Seq::new(
            record.children@.len(),
            |i: int|
                if 0 <= i < record.children@.len() {
                    record_outline(record.children@[i])
                } else {
                    Explanation {
                        label: Label {
                            title: record.title@,
                            detail: record.content@,
                            start: record.start,
                            end: record.end,
                        },
                        children: Seq::empty(),
                    }
                },
        ),
    }
}

impl View for TreeRecord {
    type V = Explanation;

    open spec fn view(&self) -> Explanation {
        record_outline(*self)
    }
}

/// Copies node `at` and everything below it into a record, depth first.
pub fn conv_tree(tree: &TreeNode<TreeItem>, at: usize) -> (record: TreeRecord)
    requires
        tree.wf(),
        tree.has(at as int),
    ensures
        record@ == outline(tree, at as int),
    decreases tree.node_count() - at,
{
    let mut children: Vec<TreeRecord> = Vec::new();
    let n = tree.children(at).len();
    let mut k: usize = 0;
    while k < n
        invariant
            tree.wf(),
            tree.has(at as int),
            n == tree.children_of(at as int).len(),
            k <= n,
            children@.len() == k,
            forall|i: int|
                0 <= i < k ==> (#[trigger] children@[i])@ == outline(
                    tree,
                    tree.children_of(at as int)[i] as int,
                ),
        decreases n - k,
    {
        let c = tree.children(at)[k];
        proof {
            tree.lemma_child(at as int, k as int);
        }
        let below = conv_tree(tree, c);
        children.push(below);
        k += 1;
    }
    let item = tree.content(at);
    let record = TreeRecord {
        title: item.title.clone(),
        content: item.content.clone(),
        start: item.span.start,
        end: item.span.end,
        children,
    };
    assert(record@.children =~= outline(tree, at as int).children);
    record
}

/// Explains a pattern from the events of the walk over its syntax tree and
/// hands the explanation out as a record. The walk is refused at the first
/// event that leaves a construct while none is open.
pub fn regex_parse(events: &Vec<Event>) -> (made: Result<TreeRecord, ProtocolFault>)
    ensures
        match made {
            Ok(record) => walked(events@, events@.len() as int) matches Some(open) && record@
                == finished(closed(open)),
            Err(fault) => {
                &&& fault.at < events@.len()
                &&& walked(events@, fault.at as int) is Some
                &&& walked(events@, fault.at + 1) is None
                &&& walked(events@, events@.len() as int) is None
            },
        },
{
    match parse(events) {
        Ok(done) => Ok(conv_tree(&done.0, done.1)),
        Err(fault) => Err(fault),
    }
}

/// `regex::Regex`, a compiled pattern of the engine, carried through as it
/// is.
#[verifier::external_type_specification]
#[verifier::external_body]
pub struct ExRegex(regex::Regex);

/// `regex::Error`, the engine's reason for not taking a pattern, carried
/// through as it is.
#[verifier::external_type_specification]
#[verifier::external_body]
pub struct ExRegexError(regex::Error);

/// The pattern and the flags a compiled pattern was built from.
pub struct Source {
    pub pattern: Seq<char>,
    pub ignore_whitespace: bool,
    pub case_insensitive: bool,
    pub multi_line: bool,
    pub dot_matches_new_line: bool,
}

/// One capture group of one match as the engine reports it: the matched
/// text with the byte offsets of its start and end, or nothing where the
/// group took no part in the match.
pub type Capture = Option<(String, usize, usize)>;

/// What a compiled pattern of the engine was built from.
pub uninterp spec fn source_of(re: regex::Regex) -> Source;

/// The names of the capture groups of a pattern, by index, as the engine
/// reports them.
pub uninterp spec fn engine_names(source: Source) -> Seq<Option<Seq<char>>>;

/// The capture groups of every match of a pattern in a text, match by match
/// from left to right, as the engine reports them.
pub uninterp spec fn engine_captures(source: Source, text: Seq<char>) -> Seq<
    Seq<Option<(Seq<char>, usize, usize)>>,
>;

/// The text with every match of a pattern replaced after a template, as the
/// engine computes it.
pub uninterp spec fn engine_replaced(source: Source, text: Seq<char>, rep: Seq<char>) -> Seq<
    char,
>;

/// The pieces of a text between the matches of a pattern, as the engine
/// computes them.
pub uninterp spec fn engine_split(source: Source, text: Seq<char>) -> Seq<Seq<char>>;

/// Builds a pattern with `regex::RegexBuilder`, the four flags set as given
/// and everything else left at its default. Nothing is claimed about which
/// patterns the engine takes; of a pattern it took, only that it was built
/// from these arguments.
#[verifier::external_body]
fn compile(
    re: &str,
    ignore_whitespace: bool,
    case_insensitive: bool,
    multi_line: bool,
    dot_matches_new_line: bool,
) -> (built: Result<regex::Regex, regex::Error>)
    ensures
        built matches Ok(r) ==> source_of(r) == (Source {
            pattern: re@,
            ignore_whitespace,
            case_insensitive,
            multi_line,
            dot_matches_new_line,
        }),
{
    regex::RegexBuilder::new(re)
        .ignore_whitespace(ignore_whitespace)
        .case_insensitive(case_insensitive)
        .multi_line(multi_line)
        .dot_matches_new_line(dot_matches_new_line)
        .build()
}

/// Tells the variants of `regex::Error` apart and moves what they hold.
/// Nothing is claimed about which variant an error is.
#[verifier::external_body]
fn error_kind(e: regex::Error) -> RegexError {
    match e {
        regex::Error::Syntax(message) => RegexError::Syntax(message),
        regex::Error::CompiledTooBig(limit) => RegexError::CompiledTooBig(limit),
        other => RegexError::Other(other.to_string()),
    }
}

/// Collects `regex::Regex::capture_names`. The result is taken on trust to
/// be a function of what the pattern was built from, named `engine_names`;
/// as the engine documents, there is at least one group, and the first,
/// which stands for the whole match, has no name.
#[verifier::external_body]
fn capture_names(re: &regex::Regex) -> (names: Vec<Option<String>>)
    ensures
        names.deep_view() == engine_names(source_of(*re)),
        names@.len() >= 1,
        names@[0] is None,
{
    re.capture_names().map(|name| name.map(|n| n.to_string())).collect()
}

/// Collects `regex::Regex::captures_iter` with the groups of each match,
/// as `regex::Captures::iter` gives them. The result is taken on trust to
/// be a function of what the pattern was built from and of the text, named
/// `engine_captures`; as the engine documents, every match has at least
/// one group, that of the whole match.
#[verifier::external_body]
fn captures_all(re: &regex::Regex, text: &str) -> (caps: Vec<Vec<Capture>>)
    ensures
        caps.deep_view() == engine_captures(source_of(*re), text@),
        forall|m: int| 0 <= m < caps@.len() ==> (#[trigger] caps@[m])@.len() >= 1,
{
    re.captures_iter(text).map(
        |caps|
            caps.iter().map(
                |group| group.map(|m| (m.as_str().to_string(), m.start(), m.end())),
            ).collect(),
    ).collect()
}

/// Calls `regex::Regex::replace_all` with a text as the template. The
/// result is taken on trust to be a function of what the pattern was built
/// from, of the text and of the template, named `engine_replaced`.
#[verifier::external_body]
fn replace_all(re: &regex::Regex, text: &str, rep: &str) -> (out: String)
    ensures
        out@ == engine_replaced(source_of(*re), text@, rep@),
{
    re.replace_all(text, rep).to_string()
}

/// Collects `regex::Regex::split`. The result is taken on trust to be a
/// function of what the pattern was built from and of the text, named
/// `engine_split`.
#[verifier::external_body]
fn split_all(re: &regex::Regex, text: &str) -> (parts: Vec<String>)
    ensures
        parts.deep_view() == engine_split(source_of(*re), text@),
{
    re.split(text).map(|part| part.to_string()).collect()
}

/// Why the engine did not take a pattern.
pub enum RegexError {
    /// The pattern is malformed; the message says where.
    Syntax(String),
    /// The compiled pattern would be larger than the limit, in bytes.
    CompiledTooBig(usize),
    /// Any other reason, in the engine's words.
    Other(String),
}

/// A compiled pattern.
pub struct CompiledPattern {
    re: regex::Regex,
}

impl CompiledPattern {
    /// The pattern and the flags this was built from.
    pub closed spec fn source(&self) -> Source {
        source_of(self.re)
    }
}

/// One capture group of one match: the matched text and the byte offsets
/// of its start and end.
pub struct MatchGroup {
    pub text: String,
    pub start: u32,
    pub end: u32,
}

/// The groups of one match; the first is the whole match.
pub struct Match {
    pub groups: Vec<MatchGroup>,
}

/// All matches in a text, with the names of the groups.
pub struct Matches {
    pub group_names: Vec<String>,
    pub matches: Vec<Match>,
}

pub struct GroupView {
    pub text: Seq<char>,
    pub start: u32,
    pub end: u32,
}

pub struct MatchesView {
    pub group_names: Seq<Seq<char>>,
    pub matches: Seq<Seq<GroupView>>,
}

impl View for MatchGroup {
    type V = GroupView;

    open spec fn view(&self) -> GroupView {
        GroupView { text: self.text@, start: self.start, end: self.end }
    }
}

impl View for Match {
    type V = Seq<GroupView>;

    open spec fn view(&self) -> Seq<GroupView> {
        Seq::new(self.groups@.len(), |g: int| self.groups@[g]@)
    }
}

impl View for Matches {
    type V = MatchesView;

    open spec fn view(&self) -> MatchesView {
        MatchesView {
            group_names: Seq::new(self.group_names@.len(), |i: int| self.group_names@[i]@),
            matches: Seq::new(self.matches@.len(), |m: int| self.matches@[m]@),
        }
    }
}

/// The name a group is reported under: its own, or the empty text where it
/// has none.
pub open spec fn name_of(name: Option<Seq<char>>) -> Seq<char> {
    match name {
        Some(n) => n,
        None => Seq::empty(),
    }
}

/// The record of a group: its text and its offsets kept in 32 bits, or the
/// empty text at `[0, 0)` where the group took no part in the match.
pub open spec fn group_of(capture: Option<(Seq<char>, usize, usize)>) -> GroupView {
    match capture {
        Some(c) => GroupView { text: c.0, start: c.1 as u32, end: c.2 as u32 },
        None => GroupView { text: Seq::empty(), start: 0, end: 0 },
    }
}

/// The report made of the names and the captures the engine gave.
pub open spec fn shaped(
    names: Seq<Option<Seq<char>>>,
    caps: Seq<Seq<Option<(Seq<char>, usize, usize)>>>,
) -> MatchesView {
    MatchesView {
        group_names: Seq::new(names.len(), |i: int| name_of(names[i])),
        matches: Seq::new(
            caps.len(),
            |m: int| Seq::new(caps[m].len(), |g: int| group_of(caps[m][g])),
        ),
    }
}

fn group_record(capture: &Capture) -> (group: MatchGroup)
    ensures
        group@ == group_of(capture.deep_view()),
{
    match capture {
        Some(c) => MatchGroup {
            text: c.0.clone(),
            start: #[verifier::truncate] (c.1 as u32),
            end: #[verifier::truncate] (c.2 as u32),
        },
        None => MatchGroup { text: String::new(), start: 0, end: 0 },
    }
}

/// Shapes what the engine gave into the report: a group without a name is
/// reported under the empty name, and a group that took no part in a match
/// as the empty text at `[0, 0)`.
pub fn matches_from(names: &Vec<Option<String>>, caps: &Vec<Vec<Capture>>) -> (report: Matches)
    ensures
        report@ == shaped(names.deep_view(), caps.deep_view()),
{
    let mut group_names: Vec<String> = Vec::new();
    let mut i: usize = 0;
    while i < names.len()
        invariant
            i <= names.len(),
            group_names@.len() == i,
            forall|k: int|
                0 <= k < i ==> (#[trigger] group_names@[k])@ == name_of(names@[k].deep_view()),
        decreases names.len() - i,
    {
        let name = match &names[i] {
            Some(n) => n.clone(),
            None => String::new(),
        };
        group_names.push(name);
        i += 1;
    }
    let mut matches: Vec<Match> = Vec::new();
    let mut m: usize = 0;
    while m < caps.len()
        invariant
            m <= caps.len(),
            matches@.len() == m,
            forall|k: int|
                0 <= k < m ==> (#[trigger] matches@[k])@ == Seq::new(
                    caps@[k]@.len(),
                    |g: int| group_of(caps@[k]@[g].deep_view()),
                ),
        decreases caps.len() - m,
    {
        let one = &caps[m];
        let mut groups: Vec<MatchGroup> = Vec::new();
        let mut g: usize = 0;
        while g < one.len()
            invariant
                g <= one.len(),
                groups@.len() == g,
                forall|k: int|
                    0 <= k < g ==> (#[trigger] groups@[k])@ == group_of(one@[k].deep_view()),
            decreases one.len() - g,
        {
            groups.push(group_record(&one[g]));
            g += 1;
        }
        let found = Match { groups };
        assert(found@ =~= Seq::new(one@.len(), |g: int| group_of(one@[g].deep_view())));
        matches.push(found);
        m += 1;
    }
    let report = Matches { group_names, matches };
    proof {
        let want = shaped(names.deep_view(), caps.deep_view());
        assert(report@.group_names =~= want.group_names);
        assert forall|k: int| 0 <= k < caps@.len() implies report@.matches[k]
            =~= want.matches[k] by {}
        assert(report@.matches =~= want.matches);
    }
    report
}

/// What `regex_new` makes of the engine's answer: the compiled pattern in
/// a box, or the reason the engine gave.
pub fn regex_from(built: Result<regex::Regex, regex::Error>) -> (made: Result<
    Box<CompiledPattern>,
    RegexError,
>)
    ensures
        made is Ok == built is Ok,
        built matches Ok(r) ==> made->Ok_0.source() == source_of(r),
{
    match built {
        Ok(re) => Ok(Box::new(CompiledPattern { re })),
        Err(e) => Err(error_kind(e)),
    }
}

/// Compiles a pattern with the four flags: whitespace in the pattern is
/// ignored, letters match without regard to case, `^` and `$` match at
/// every line, `.` matches a line break. Whether the pattern is taken is the
/// engine's decision; a pattern that is taken remembers what it was built
/// from.
pub fn regex_new(
    re: &str,
    ignore_whitespace: bool,
    case_insensitive: bool,
    multi_line: bool,
    dot_matches_new_line: bool,
) -> (made: Result<Box<CompiledPattern>, RegexError>)
    ensures
        made matches Ok(r) ==> r.source() == (Source {
            pattern: re@,
            ignore_whitespace,
            case_insensitive,
            multi_line,
            dot_matches_new_line,
        }),
{
    regex_from(compile(re, ignore_whitespace, case_insensitive, multi_line, dot_matches_new_line))
}

/// All matches of the pattern in `text`, from left to right, each with its
/// capture groups, and the names of the groups. The report is what
/// `matches_from` makes of the engine's names and captures; there is at
/// least the group of the whole match, which has no name and is part of
/// every match.
pub fn regex_match(re: &Box<CompiledPattern>, text: &str) -> (report: Matches)
    ensures
        report@ == shaped(engine_names(re.source()), engine_captures(re.source(), text@)),
        report.group_names@.len() >= 1,
        report.group_names@[0]@ == Seq::<char>::empty(),
        forall|m: int|
            0 <= m < report.matches@.len() ==> (#[trigger] report.matches@[m]).groups@.len() >= 1,
{
    let names = capture_names(&re.re);
    let caps = captures_all(&re.re, text);
    let report = matches_from(&names, &caps);
    proof {
        assert(report@.group_names.len() == names@.len());
        assert(report@.group_names[0] == name_of(names@[0].deep_view()));
        assert forall|m: int| 0 <= m < report.matches@.len() implies (
        #[trigger] report.matches@[m]).groups@.len() >= 1 by {
            assert(report@.matches.len() == caps@.len());
            assert(report@.matches[m].len() == caps@[m]@.len());
        }
    }
    report
}

/// The text with every match of the pattern replaced after the template
/// `rep`, which may refer to groups in the engine's own syntax.
pub fn regex_replace(re: &Box<CompiledPattern>, text: &str, rep: &str) -> (out: String)
    ensures
        out@ == engine_replaced(re.source(), text@, rep@),
{
    replace_all(&re.re, text, rep)
}

/// The pieces of the text between the matches of the pattern, in order.
pub fn regex_split(re: &Box<CompiledPattern>, text: &str) -> (parts: Vec<String>)
    ensures
        parts.deep_view() == engine_split(re.source(), text@),
{
    split_all(&re.re, text)
}

} // verus!
