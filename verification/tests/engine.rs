use regex_engine::cppbridge::{
    matches_from, regex_from, regex_match, regex_new, regex_replace, regex_split, Capture,
    RegexError,
};

fn texts(groups: &[regex_engine::cppbridge::MatchGroup]) -> Vec<(String, u32, u32)> {
    groups.iter().map(|g| (g.text.clone(), g.start, g.end)).collect()
}

#[test]
fn match_all_reports_groups_and_names() {
    let re = regex_new(r"(?P<word>[a-z]+)(\d)?", false, false, false, false).ok().unwrap();
    let found = regex_match(&re, "ab1 cd");
    assert_eq!(found.group_names, vec!["", "word", ""]);
    assert_eq!(found.matches.len(), 2);
    assert_eq!(
        texts(&found.matches[0].groups),
        vec![("ab1".to_string(), 0, 3), ("ab".to_string(), 0, 2), ("1".to_string(), 2, 3)]
    );
    assert_eq!(
        texts(&found.matches[1].groups),
        vec![("cd".to_string(), 4, 6), ("cd".to_string(), 4, 6), (String::new(), 0, 0)]
    );
}

#[test]
fn match_all_without_a_match() {
    let re = regex_new("x", false, false, false, false).ok().unwrap();
    let found = regex_match(&re, "abc");
    assert_eq!(found.group_names, vec![""]);
    assert!(found.matches.is_empty());
}

#[test]
fn offsets_count_bytes() {
    let re = regex_new("b", false, false, false, false).ok().unwrap();
    let found = regex_match(&re, "éb");
    assert_eq!(texts(&found.matches[0].groups), vec![("b".to_string(), 2, 3)]);
}

#[test]
fn the_four_flags_reach_the_engine() {
    let plain = regex_new("a b", false, false, false, false).ok().unwrap();
    assert_eq!(regex_match(&plain, "ab").matches.len(), 0);
    let spaced = regex_new("a b", true, false, false, false).ok().unwrap();
    assert_eq!(regex_match(&spaced, "ab").matches.len(), 1);
    let exact = regex_new("a", false, false, false, false).ok().unwrap();
    assert_eq!(regex_match(&exact, "A").matches.len(), 0);
    let any_case = regex_new("a", false, true, false, false).ok().unwrap();
    assert_eq!(regex_match(&any_case, "A").matches.len(), 1);
    let whole = regex_new("^b$", false, false, false, false).ok().unwrap();
    assert_eq!(regex_match(&whole, "a\nb").matches.len(), 0);
    let lines = regex_new("^b$", false, false, true, false).ok().unwrap();
    assert_eq!(regex_match(&lines, "a\nb").matches.len(), 1);
    let dot = regex_new("a.b", false, false, false, false).ok().unwrap();
    assert_eq!(regex_match(&dot, "a\nb").matches.len(), 0);
    let dot_all = regex_new("a.b", false, false, false, true).ok().unwrap();
    assert_eq!(regex_match(&dot_all, "a\nb").matches.len(), 1);
}

#[test]
fn a_malformed_pattern_is_a_syntax_error() {
    match regex_new("(a", false, false, false, false) {
        Err(RegexError::Syntax(message)) => assert!(message.contains("unclosed group")),
        _ => panic!("expected a syntax error"),
    }
}

#[test]
fn regex_from_keeps_the_engines_answer() {
    assert!(regex_from(regex::Regex::new("a+")).is_ok());
    assert!(regex_from(regex::Regex::new("a(")).is_err());
    let too_big = regex::RegexBuilder::new(r"\w{100}").size_limit(10).build();
    match regex_from(too_big) {
        Err(RegexError::CompiledTooBig(limit)) => assert_eq!(limit, 10),
        _ => panic!("expected a size error"),
    }
}

#[test]
fn replace_all_follows_the_template() {
    let re = regex_new(r"(\d+)-(\d+)", false, false, false, false).ok().unwrap();
    assert_eq!(regex_replace(&re, "1-2 and 30-40", "$2-$1"), "2-1 and 40-30");
    assert_eq!(regex_replace(&re, "none", "$2-$1"), "none");
}

#[test]
fn split_gives_the_pieces_between_matches() {
    let re = regex_new(" +", false, false, false, false).ok().unwrap();
    assert_eq!(regex_split(&re, "    a  b c"), vec!["", "a", "b", "c"]);
    assert_eq!(regex_split(&re, "abc"), vec!["abc"]);
}

#[test]
fn shaping_of_engine_results() {
    let names = vec![None, Some("n".to_string())];
    let caps: Vec<Vec<Capture>> = vec![
        vec![Some(("xy".to_string(), 1, 3)), None],
        vec![Some(("z".to_string(), 0x1_0000_0002, 0x1_0000_0003)), Some((String::new(), 7, 7))],
    ];
    let report = matches_from(&names, &caps);
    assert_eq!(report.group_names, vec!["", "n"]);
    assert_eq!(report.matches.len(), 2);
    assert_eq!(texts(&report.matches[0].groups), vec![("xy".to_string(), 1, 3), (String::new(), 0, 0)]);
    assert_eq!(texts(&report.matches[1].groups), vec![("z".to_string(), 2, 3), (String::new(), 7, 7)]);
    let nothing = matches_from(&Vec::new(), &Vec::new());
    assert!(nothing.group_names.is_empty());
    assert!(nothing.matches.is_empty());
}
