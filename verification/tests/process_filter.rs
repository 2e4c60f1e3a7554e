use zoio::process_filter::{FilterError, FilterSet, ProcessFilter};

#[test]
fn valid_regex_compiles() {
    let f = ProcessFilter::new("python.*").unwrap();
    assert_eq!(f.pattern(), "python.*");
    assert!(f.enabled);
    assert!(f.include_children);
}

#[test]
fn invalid_regex_reports_pattern() {
    let err = ProcessFilter::new("(unclosed").unwrap_err();
    let msg = err.to_string();
    assert!(msg.contains("(unclosed"), "error msg: {msg}");
}

#[test]
fn invalid_regex_message_gives_the_reason() {
    let reason = regex::Regex::new("(unclosed").unwrap_err().to_string();
    let err = ProcessFilter::new("(unclosed").unwrap_err();
    assert_eq!(err.to_string(), format!("invalid regex '(unclosed': {reason}"));
    assert_eq!(FilterError::message("a", "b"), "invalid regex 'a': b");
    match err {
        FilterError::InvalidRegex { pattern, source } => {
            assert_eq!(pattern, "(unclosed");
            assert_eq!(source.to_string(), reason);
        }
    }
}

#[test]
fn outcome_of_compiling_decides() {
    let made = ProcessFilter::from_outcome("shown", regex::Regex::new("^b$")).unwrap();
    assert_eq!(made.pattern(), "shown");
    assert!(made.matches("b", ""));
    assert!(!made.matches("B", ""));
    assert!(!made.matches("shown", ""));
    assert!(ProcessFilter::from_outcome("x", regex::Regex::new("[")).is_err());
}

#[test]
fn case_insensitive_by_default() {
    let f = ProcessFilter::new("PyThOn").unwrap();
    assert!(f.matches("python3", ""));
    assert!(f.matches("PYTHON3", ""));
}

#[test]
fn letter_case_never_decides_without_inline_flags() {
    for pattern in ["(?:my|APP)", "(?P<n>y)a", "(?<n[0]>y)A", "\\(?a", "\\(?i", "MyApp", "[A-F]+", "[^x]y", "\\p{Lu}{3}", "^[[:upper:]]+$", "\\x41b"] {
        let f = ProcessFilter::new(pattern).unwrap();
        for text in ["MYAPP", "abcdef", "xY", "Ab", "zzz"] {
            let small = f.matches(&text.to_ascii_lowercase(), "");
            let capital = f.matches("", &text.to_ascii_uppercase());
            assert_eq!(small, capital, "{pattern} on {text}");
        }
    }
}

#[test]
fn inline_flags_opt_out_of_case_insensitivity() {
    let f = ProcessFilter::new("(?-i)PyThOn").unwrap();
    assert!(f.matches("PyThOn", ""));
    assert!(!f.matches("python", "PYTHON"));
}

#[test]
fn matches_against_name_or_cmdline() {
    let f = ProcessFilter::new("myapp").unwrap();
    assert!(f.matches("myapp", ""));
    assert!(f.matches("bash", "/usr/bin/myapp --flag"));
    assert!(!f.matches("bash", "/usr/bin/other"));
}

#[test]
fn disabled_filter_never_matches() {
    let mut f = ProcessFilter::new(".*").unwrap();
    f.enabled = false;
    assert!(!f.matches("anything", "anything"));
}

#[test]
fn filter_set_is_logical_or() {
    let mut set = FilterSet::new();
    set.push(ProcessFilter::new("^python$").unwrap());
    set.push(ProcessFilter::new("^node$").unwrap());
    assert!(set.matches("python", ""));
    assert!(set.matches("node", ""));
    assert!(!set.matches("rustc", ""));
}

#[test]
fn adding_a_filter_takes_nothing_away() {
    let mut set = FilterSet::new();
    set.push(ProcessFilter::new("^python$").unwrap());
    let mut grown = set.clone();
    grown.push(ProcessFilter::new("^node$").unwrap());
    for name in ["python", "node", "rustc"] {
        let added = grown.filters[1].matches(name, "");
        assert_eq!(grown.matches(name, ""), set.matches(name, "") || added);
    }
}

#[test]
fn empty_filter_set_matches_nothing() {
    let set = FilterSet::new();
    assert!(set.is_empty());
    assert!(!set.matches("anything", "anything"));
}

#[test]
fn filter_set_remove_and_clear() {
    let mut set = FilterSet::new();
    set.push(ProcessFilter::new("a").unwrap());
    set.push(ProcessFilter::new("b").unwrap());
    set.remove(5); // out of bounds: no panic
    assert_eq!(set.filters.len(), 2);
    set.remove(0);
    assert_eq!(set.filters.len(), 1);
    assert_eq!(set.filters[0].pattern(), "b");
    set.clear();
    assert!(set.filters.is_empty());
}

#[test]
fn wants_children_reflects_active_filter_flags() {
    let mut set = FilterSet::new();
    let mut f1 = ProcessFilter::new("a").unwrap();
    f1.include_children = false;
    set.push(f1);
    assert!(!set.wants_children());

    let f2 = ProcessFilter::new("b").unwrap();
    set.push(f2);
    assert!(set.wants_children());

    // Disabling the only child-including filter disables the answer.
    set.filters[1].enabled = false;
    assert!(!set.wants_children());
}

#[test]
fn set_is_empty_when_all_filters_disabled() {
    let mut set = FilterSet::new();
    let mut f = ProcessFilter::new("a").unwrap();
    f.enabled = false;
    set.push(f);
    assert!(set.is_empty());
}

#[test]
fn inactive_set_matches_nothing_and_wants_no_children() {
    let mut set = FilterSet::default();
    let mut f = ProcessFilter::new(".*").unwrap();
    f.enabled = false;
    set.push(f);
    assert!(!set.matches("a", "b"));
    assert!(!set.wants_children());
}

#[test]
fn any_active_goes_by_the_enabled_filters() {
    let mut set = FilterSet::new();
    set.push(ProcessFilter::new("a").unwrap());
    set.push(ProcessFilter::new("b").unwrap());
    set.filters[0].enabled = false;
    assert!(!set.any_active(&vec![true, false]));
    assert!(set.any_active(&vec![false, true]));
    assert!(!set.any_active(&vec![true]));
}

#[test]
fn cloned_filter_matches_alike() {
    let mut f = ProcessFilter::new("my.pp").unwrap();
    f.include_children = false;
    let c = f.clone();
    assert_eq!(c.pattern(), "my.pp");
    assert!(!c.include_children);
    assert!(c.enabled);
    assert!(c.matches("MYAPP", ""));
    assert!(!c.matches("app", ""));
}
