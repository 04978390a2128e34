use capturing_glob::{MatchOptions, Pattern, SubstitutionError};

#[test]
fn substitute_doc_examples() {
    assert_eq!(Pattern::new("images/(*).jpg").unwrap().substitute(&["cat"]).unwrap(), "images/cat.jpg");
    assert_eq!(
        Pattern::new("images/(*.jpg)").unwrap().substitute(&["cat.jpg"]).unwrap(),
        "images/cat.jpg"
    );
}

#[test]
fn substitute_does_not_check_result() {
    let pattern = Pattern::new("images/(*.jpg)").unwrap();
    assert_eq!(pattern.substitute(&["cat.png"]).unwrap(), "images/cat.png");
    assert!(!pattern.matches(&pattern.substitute(&["cat.png"]).unwrap()));
}

#[test]
fn substitute_errors() {
    assert_eq!(
        Pattern::new("(*)/(*)").unwrap().substitute(&["a"]),
        Err(SubstitutionError::MissingGroup(1))
    );
    assert_eq!(Pattern::new("(*)/(*)").unwrap().substitute(&[]), Err(SubstitutionError::MissingGroup(0)));
    assert_eq!(Pattern::new("a*").unwrap().substitute(&["x"]), Err(SubstitutionError::UnexpectedWildcard));
    assert_eq!(Pattern::new("a/(*)/b?").unwrap().substitute(&["x"]), Err(SubstitutionError::UnexpectedWildcard));
    assert_eq!(Pattern::new("plain/text").unwrap().substitute(&[]).unwrap(), "plain/text");
    assert_eq!(Pattern::new("((*)-(*))").unwrap().substitute(&["whole", "x", "y"]).unwrap(), "whole");
    assert_eq!(Pattern::new("**/(*)").unwrap().substitute(&["x"]), Err(SubstitutionError::UnexpectedWildcard));
}

#[test]
fn substitution_error_messages() {
    assert_eq!(SubstitutionError::MissingGroup(3).to_string(), "substitution error: missing group 3");
    assert_eq!(SubstitutionError::MissingGroup(120).to_string(), "substitution error: missing group 120");
    assert_eq!(SubstitutionError::UnexpectedWildcard.to_string(), "unexpected wildcard");
}

#[test]
fn pattern_error_kinds_and_messages() {
    let e = Pattern::new("a/*****").unwrap_err();
    assert_eq!((e.pos, e.msg), (4, "wildcards are either regular `*` or recursive `**`"));
    assert_eq!(
        e.to_string(),
        "Pattern syntax error near position 4: wildcards are either regular `*` or recursive `**`"
    );
    let e = Pattern::new("a**b").unwrap_err();
    assert_eq!((e.pos, e.msg), (0, "recursive wildcards must form a single path component"));
    let e = Pattern::new("abc[def").unwrap_err();
    assert_eq!((e.pos, e.msg), (3, "invalid range pattern"));
    let e = Pattern::new("ab)c").unwrap_err();
    assert_eq!((e.pos, e.msg), (2, "Unmatched closing paren"));
    let e = Pattern::new("x(a(b").unwrap_err();
    assert_eq!((e.pos, e.msg), (1, "Unmatched opening paren"));
    assert_eq!(
        Pattern::new("a[").unwrap_err().to_string(),
        "Pattern syntax error near position 1: invalid range pattern"
    );
}

#[test]
fn escaped_text_matches_only_itself() {
    for s in ["_[_]_?_*_!_", "plain", "", "a*b?c[d]e", "**", "[!x]", ")", "(", "f(x)", "a/(**)/b"] {
        let p = Pattern::new(&Pattern::escape(s)).unwrap();
        assert!(p.matches(s));
        assert!(!p.matches(&format!("{}x", s)));
    }
    assert_eq!(Pattern::escape("a*b"), "a[*]b");
    assert_eq!(Pattern::escape("f(x)"), "f[(]x[)]");
}

#[test]
fn captures_exactly_when_matches() {
    let p = Pattern::new("src/(*)/(*.rs)").unwrap();
    for s in ["src/a/b.rs", "src/a/b.txt", "src/b.rs", "src/x/y/z.rs", "src//.rs"] {
        assert_eq!(p.captures(s).is_some(), p.matches(s));
    }
    let e = p.captures("src/abc/lib.rs").unwrap();
    assert_eq!(e.path(), "src/abc/lib.rs");
    assert_eq!(e.group(0), Some("src/abc/lib.rs"));
    assert_eq!(e.group(1), Some("abc"));
    assert_eq!(e.group(2), Some("lib.rs"));
    assert_eq!(e.group(3), None);
    assert_eq!(e.into_path(), "src/abc/lib.rs");
}

#[test]
fn captures_with_options() {
    let p = Pattern::new("(*).TXT").unwrap();
    let insensitive = MatchOptions {
        case_sensitive: false,
        require_literal_separator: false,
        require_literal_leading_dot: false,
    };
    assert!(p.captures("notes.txt").is_none());
    let e = p.captures_with("notes.txt", &insensitive).unwrap();
    assert_eq!(e.group(1), Some("notes"));
    assert_eq!(p.captures_path_with(Some("a.txt"), &insensitive).unwrap().group(1), Some("a"));
    assert!(p.captures_path_with(None, &insensitive).is_none());
    assert!(p.captures_path(Some("a.TXT")).is_some());
}

#[test]
fn groups_with_multibyte_text() {
    let p = Pattern::new("(*)-(?)").unwrap();
    let e = p.captures("héllo-ü").unwrap();
    assert_eq!(e.group(1), Some("héllo"));
    assert_eq!(e.group(2), Some("ü"));
}

#[test]
fn default_options() {
    let o = MatchOptions::new();
    assert!(o.case_sensitive);
    assert!(!o.require_literal_separator);
    assert!(!o.require_literal_leading_dot);
}

#[test]
fn pattern_keeps_its_text() {
    for s in ["a*b", "some/(**)/x", "", "[!a-z]?"] {
        assert_eq!(Pattern::new(s).unwrap().as_str(), s);
    }
}

#[test]
fn recursive_flag() {
    assert!(Pattern::new("a/**/b").unwrap().is_recursive());
    assert!(!Pattern::new("a/*/b").unwrap().is_recursive());
}

#[test]
fn matches_path_none_never_matches() {
    let p = Pattern::new("*").unwrap();
    assert!(!p.matches_path(None));
    assert!(!p.matches_path_with(None, &MatchOptions::new()));
    assert!(p.matches_path(Some("anything")));
}

fn resubstitute(pattern: &str, path: &str) -> String {
    let p = Pattern::new(pattern).unwrap();
    let e = p.captures(path).unwrap();
    let mut groups: Vec<&str> = Vec::new();
    let mut n = 1;
    while let Some(g) = e.group(n) {
        groups.push(g);
        n += 1;
    }
    p.substitute(&groups).unwrap()
}

#[test]
fn captured_groups_substitute_back_to_the_path() {
    assert_eq!(resubstitute("images/(*).jpg", "images/cat.jpg"), "images/cat.jpg");
    assert_eq!(resubstitute("src/(*)/(*.rs)", "src/abc/lib.rs"), "src/abc/lib.rs");
    assert_eq!(resubstitute("((*)-(*))", "left-right"), "left-right");
    assert_eq!(resubstitute("docs/(section-*).rst", "docs/section-2.rst"), "docs/section-2.rst");
    assert_eq!(resubstitute("/usr/share/zoneinfo/(*/*)", "/usr/share/zoneinfo/Europe/Paris"), "/usr/share/zoneinfo/Europe/Paris");
    assert_eq!(resubstitute("(?)(?)", "xy"), "xy");
}

#[test]
fn recursive_group_substitutes_back_with_its_separator() {
    for path in ["some/one/needle.txt", "some/one/two/needle.txt", "some/needle.txt"] {
        assert_eq!(resubstitute("some/(**)/needle.txt", path), path);
    }
    let p = Pattern::new("some/(**)/needle.txt").unwrap();
    assert_eq!(p.substitute(&["one/two"]).unwrap(), "some/one/two/needle.txt");
    assert_eq!(p.substitute(&[""]).unwrap(), "some/needle.txt");
    assert_eq!(resubstitute("(a/**)/b", "a/x/b"), "a/x/b");
    assert_eq!(resubstitute("x/(**)", "x/y/z"), "x/y/z");
    assert_eq!(resubstitute("/usr/(**)/(*).txt", "/usr/a/b/c.txt"), "/usr/a/b/c.txt");
}

#[test]
fn recursive_group_exceptions() {
    // the path ends with a separator
    assert_eq!(resubstitute("a/(**)", "a/b/"), "a/b");
    // the path has an empty component
    assert_eq!(resubstitute("some/(**)/needle.txt", "some//needle.txt"), "some/needle.txt");
    // the group holds more than the `**`
    assert_eq!(resubstitute("a(/**)/b", "a/b"), "ab");
    // nothing after the group takes a char
    assert_eq!(resubstitute("(**)/()", "a"), "a/");
}

#[test]
fn readme_capture_patterns() {
    let e = Pattern::new("(*)/package.json").unwrap().captures("web/package.json").unwrap();
    assert_eq!(e.group(1), Some("web"));
    let e = Pattern::new("tests/(*).spec.js").unwrap().captures("tests/login.spec.js").unwrap();
    assert_eq!(e.group(1), Some("login"));
    let p = Pattern::new("/media/**/(*).jpg").unwrap();
    // under the default options `*` also takes separators, and `**` takes
    // as little as it can
    assert_eq!(p.captures("/media/a/b/cat.jpg").unwrap().group(1), Some("a/b/cat"));
    let strict = MatchOptions {
        case_sensitive: true,
        require_literal_separator: true,
        require_literal_leading_dot: false,
    };
    assert_eq!(p.captures_with("/media/a/b/cat.jpg", &strict).unwrap().group(1), Some("cat"));
    let e = Pattern::new("/media/(**/*).jpg").unwrap().captures("/media/a/b/cat.jpg").unwrap();
    assert_eq!(e.group(1), Some("a/b/cat"));
}

#[test]
fn pattern_clone_and_default() {
    let p = Pattern::new("src/(*).rs").unwrap();
    let q = p.clone();
    assert_eq!(p, q);
    assert_eq!(q.as_str(), "src/(*).rs");
    assert!(q.matches("src/lib.rs"));
    let d = Pattern::default();
    assert_eq!(d.as_str(), "");
    assert!(d.matches(""));
    assert!(!d.matches("a"));
    assert_eq!(d, Pattern::new("").unwrap());
}

#[test]
fn pattern_text_as_string() {
    let p: Pattern = "docs/(section-*).rst".parse().unwrap();
    assert_eq!(p.to_string(), "docs/(section-*).rst");
    assert_eq!("a(b".parse::<Pattern>().unwrap_err().msg, "Unmatched opening paren");
}

#[test]
fn restrictions_only_remove_matches() {
    let strict = MatchOptions {
        case_sensitive: true,
        require_literal_separator: true,
        require_literal_leading_dot: true,
    };
    let loose = MatchOptions::new();
    for (pat, s) in [("*", ".x"), ("a*b", "a/b"), ("**/*", "a/.b"), ("?", "/"), ("*.rs", "lib.rs")] {
        let p = Pattern::new(pat).unwrap();
        if p.matches_with(s, &strict) {
            assert!(p.matches_with(s, &loose));
        }
        assert!(p.matches_with(s, &loose));
    }
    assert!(!Pattern::new("*").unwrap().matches_with(".x", &strict));
}
