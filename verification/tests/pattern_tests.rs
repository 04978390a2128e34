use std::path::Path;

use capturing_glob::options::MatchOptions;
use capturing_glob::pattern::Pattern;

#[test]
fn test_pattern_from_str() {
    assert!("a*b".parse::<Pattern>().unwrap().matches("a_b"));
    assert!("a/**b".parse::<Pattern>().unwrap_err().pos == 4);
}

#[test]
fn test_wildcard_errors() {
    assert!(Pattern::new("a/**b").unwrap_err().pos == 4);
    assert!(Pattern::new("a/bc**").unwrap_err().pos == 3);
    assert!(Pattern::new("a/*****").unwrap_err().pos == 4);
    assert!(Pattern::new("a/b**c**d").unwrap_err().pos == 2);
    assert!(Pattern::new("a**b").unwrap_err().pos == 0);
}

#[test]
fn test_unclosed_bracket_errors() {
    assert!(Pattern::new("abc[def").unwrap_err().pos == 3);
    assert!(Pattern::new("abc[!def").unwrap_err().pos == 3);
    assert!(Pattern::new("abc[").unwrap_err().pos == 3);
    assert!(Pattern::new("abc[!").unwrap_err().pos == 3);
    assert!(Pattern::new("abc[d").unwrap_err().pos == 3);
    assert!(Pattern::new("abc[!d").unwrap_err().pos == 3);
    assert!(Pattern::new("abc[]").unwrap_err().pos == 3);
    assert!(Pattern::new("abc[!]").unwrap_err().pos == 3);
}

#[test]
fn test_wildcards() {
    assert!(Pattern::new("a*b").unwrap().matches("a_b"));
    assert!(Pattern::new("a*b*c").unwrap().matches("abc"));
    assert!(!Pattern::new("a*b*c").unwrap().matches("abcd"));
    assert!(Pattern::new("a*b*c").unwrap().matches("a_b_c"));
    assert!(Pattern::new("a*b*c").unwrap().matches("a___b___c"));
    assert!(Pattern::new("abc*abc*abc").unwrap().matches("abcabcabcabcabcabcabc"));
    assert!(!Pattern::new("abc*abc*abc").unwrap().matches("abcabcabcabcabcabcabca"));
    assert!(Pattern::new("a*a*a*a*a*a*a*a*a")
                .unwrap()
                .matches("aaaaaaaaaaaaaaaaaaaaaaaaaaaaaaa"));
    assert!(Pattern::new("a*b[xyz]c*d").unwrap().matches("abxcdbxcddd"));
    assert!(Pattern::new("some/only-(*).txt").unwrap().matches("some/only-file1.txt"));
}

#[test]
fn test_recursive_wildcards() {
    let pat = Pattern::new("some/**/needle.txt").unwrap();
    assert!(pat.matches("some/needle.txt"));
    assert!(pat.matches("some/one/needle.txt"));
    assert!(pat.matches("some/one/two/needle.txt"));
    assert!(pat.matches("some/other/needle.txt"));
    assert!(!pat.matches("some/other/notthis.txt"));

    // a single ** should be valid, for globs
    // Should accept anything
    let pat = Pattern::new("**").unwrap();
    assert!(pat.is_recursive());
    assert!(pat.matches("abcde"));
    assert!(pat.matches(""));
    assert!(pat.matches(".asdf"));
    assert!(pat.matches("/x/.asdf"));

    // collapse consecutive wildcards
    let pat = Pattern::new("some/**/**/needle.txt").unwrap();
    assert!(pat.matches("some/needle.txt"));
    assert!(pat.matches("some/one/needle.txt"));
    assert!(pat.matches("some/one/two/needle.txt"));
    assert!(pat.matches("some/other/needle.txt"));
    assert!(!pat.matches("some/other/notthis.txt"));

    // ** can begin the pattern
    let pat = Pattern::new("**/test").unwrap();
    assert!(pat.matches("one/two/test"));
    assert!(pat.matches("one/test"));
    assert!(pat.matches("test"));

    // /** can begin the pattern
    let pat = Pattern::new("/**/test").unwrap();
    assert!(pat.matches("/one/two/test"));
    assert!(pat.matches("/one/test"));
    assert!(pat.matches("/test"));
    assert!(!pat.matches("/one/notthis"));
    assert!(!pat.matches("/notthis"));

    // Only start sub-patterns on start of path segment.
    let pat = Pattern::new("**/.*").unwrap();
    assert!(pat.matches(".abc"));
    assert!(pat.matches("abc/.abc"));
    assert!(!pat.matches("ab.c"));
    assert!(!pat.matches("abc/ab.c"));
}

#[test]
fn test_range_pattern() {
    let pat = Pattern::new("a[0-9]b").unwrap();
    for i in 0..10 {
        assert!(pat.matches(&format!("a{}b", i)));
    }
    assert!(!pat.matches("a_b"));

    let pat = Pattern::new("a[!0-9]b").unwrap();
    for i in 0..10 {
        assert!(!pat.matches(&format!("a{}b", i)));
    }
    assert!(pat.matches("a_b"));

    let pats = ["[a-z123]", "[1a-z23]", "[123a-z]"];
    for &p in pats.iter() {
        let pat = Pattern::new(p).unwrap();
        for c in "abcdefghijklmnopqrstuvwxyz".chars() {
            assert!(pat.matches(&c.to_string()));
        }
        for c in "ABCDEFGHIJKLMNOPQRSTUVWXYZ".chars() {
            let options = MatchOptions { case_sensitive: false, ..MatchOptions::new() };
            assert!(pat.matches_with(&c.to_string(), &options));
        }
        assert!(pat.matches("1"));
        assert!(pat.matches("2"));
        assert!(pat.matches("3"));
    }

    let pats = ["[abc-]", "[-abc]", "[a-c-]"];
    for &p in pats.iter() {
        let pat = Pattern::new(p).unwrap();
        assert!(pat.matches("a"));
        assert!(pat.matches("b"));
        assert!(pat.matches("c"));
        assert!(pat.matches("-"));
        assert!(!pat.matches("d"));
    }

    let pat = Pattern::new("[2-1]").unwrap();
    assert!(!pat.matches("1"));
    assert!(!pat.matches("2"));

    assert!(Pattern::new("[-]").unwrap().matches("-"));
    assert!(!Pattern::new("[!-]").unwrap().matches("-"));
}

#[test]
fn test_pattern_matches() {
    let txt_pat = Pattern::new("*hello.txt").unwrap();
    assert!(txt_pat.matches("hello.txt"));
    assert!(txt_pat.matches("gareth_says_hello.txt"));
    assert!(txt_pat.matches("some/path/to/hello.txt"));
    assert!(txt_pat.matches("some\\path\\to\\hello.txt"));
    assert!(txt_pat.matches("/an/absolute/path/to/hello.txt"));
    assert!(!txt_pat.matches("hello.txt-and-then-some"));
    assert!(!txt_pat.matches("goodbye.txt"));

    let dir_pat = Pattern::new("*some/path/to/hello.txt").unwrap();
    assert!(dir_pat.matches("some/path/to/hello.txt"));
    assert!(dir_pat.matches("a/bigger/some/path/to/hello.txt"));
    assert!(!dir_pat.matches("some/path/to/hello.txt-and-then-some"));
    assert!(!dir_pat.matches("some/other/path/to/hello.txt"));
}

#[test]
fn test_pattern_escape() {
    let s = "_[_]_?_*_!_";
    assert_eq!(Pattern::escape(s), "_[[]_[]]_[?]_[*]_!_".to_string());
    assert!(Pattern::new(&Pattern::escape(s)).unwrap().matches(s));
}

#[test]
fn test_pattern_matches_case_insensitive() {
    let pat = Pattern::new("aBcDeFg").unwrap();
    let options = MatchOptions {
        case_sensitive: false,
        require_literal_separator: false,
        require_literal_leading_dot: false,
    };

    assert!(pat.matches_with("aBcDeFg", &options));
    assert!(pat.matches_with("abcdefg", &options));
    assert!(pat.matches_with("ABCDEFG", &options));
    assert!(pat.matches_with("AbCdEfG", &options));
}

#[test]
fn test_pattern_matches_case_insensitive_range() {
    let pat_within = Pattern::new("[a]").unwrap();
    let pat_except = Pattern::new("[!a]").unwrap();

    let options_case_insensitive = MatchOptions {
        case_sensitive: false,
        require_literal_separator: false,
        require_literal_leading_dot: false,
    };
    let options_case_sensitive = MatchOptions {
        case_sensitive: true,
        require_literal_separator: false,
        require_literal_leading_dot: false,
    };

    assert!(pat_within.matches_with("a", &options_case_insensitive));
    assert!(pat_within.matches_with("A", &options_case_insensitive));
    assert!(!pat_within.matches_with("A", &options_case_sensitive));

    assert!(!pat_except.matches_with("a", &options_case_insensitive));
    assert!(!pat_except.matches_with("A", &options_case_insensitive));
    assert!(pat_except.matches_with("A", &options_case_sensitive));
}

#[test]
fn test_pattern_matches_require_literal_separator() {
    let options_require_literal = MatchOptions {
        case_sensitive: true,
        require_literal_separator: true,
        require_literal_leading_dot: false,
    };
    let options_not_require_literal = MatchOptions {
        case_sensitive: true,
        require_literal_separator: false,
        require_literal_leading_dot: false,
    };

    assert!(Pattern::new("abc/def").unwrap().matches_with("abc/def", &options_require_literal));
    assert!(!Pattern::new("abc?def")
                 .unwrap()
                 .matches_with("abc/def", &options_require_literal));
    assert!(!Pattern::new("abc*def")
                 .unwrap()
                 .matches_with("abc/def", &options_require_literal));
    assert!(!Pattern::new("abc[/]def")
                 .unwrap()
                 .matches_with("abc/def", &options_require_literal));

    assert!(Pattern::new("abc/def")
                .unwrap()
                .matches_with("abc/def", &options_not_require_literal));
    assert!(Pattern::new("abc?def")
                .unwrap()
                .matches_with("abc/def", &options_not_require_literal));
    assert!(Pattern::new("abc*def")
                .unwrap()
                .matches_with("abc/def", &options_not_require_literal));
    assert!(Pattern::new("abc[/]def")
                .unwrap()
                .matches_with("abc/def", &options_not_require_literal));
}

#[test]
fn test_pattern_matches_require_literal_leading_dot() {
    let options_require_literal_leading_dot = MatchOptions {
        case_sensitive: true,
        require_literal_separator: false,
        require_literal_leading_dot: true,
    };
    let options_not_require_literal_leading_dot = MatchOptions {
        case_sensitive: true,
        require_literal_separator: false,
        require_literal_leading_dot: false,
    };

    let f = |options| Pattern::new("*.txt").unwrap().matches_with(".hello.txt", options);
    assert!(f(&options_not_require_literal_leading_dot));
    assert!(!f(&options_require_literal_leading_dot));

    let f = |options| Pattern::new(".*.*").unwrap().matches_with(".hello.txt", options);
    assert!(f(&options_not_require_literal_leading_dot));
    assert!(f(&options_require_literal_leading_dot));

    let f = |options| Pattern::new("aaa/bbb/*").unwrap().matches_with("aaa/bbb/.ccc", options);
    assert!(f(&options_not_require_literal_leading_dot));
    assert!(!f(&options_require_literal_leading_dot));

    let f = |options| {
        Pattern::new("aaa/bbb/*").unwrap().matches_with("aaa/bbb/c.c.c.", options)
    };
    assert!(f(&options_not_require_literal_leading_dot));
    assert!(f(&options_require_literal_leading_dot));

    let f = |options| Pattern::new("aaa/bbb/.*").unwrap().matches_with("aaa/bbb/.ccc", options);
    assert!(f(&options_not_require_literal_leading_dot));
    assert!(f(&options_require_literal_leading_dot));

    let f = |options| Pattern::new("aaa/?bbb").unwrap().matches_with("aaa/.bbb", options);
    assert!(f(&options_not_require_literal_leading_dot));
    assert!(!f(&options_require_literal_leading_dot));

    let f = |options| Pattern::new("aaa/[.]bbb").unwrap().matches_with("aaa/.bbb", options);
    assert!(f(&options_not_require_literal_leading_dot));
    assert!(!f(&options_require_literal_leading_dot));

    let f = |options| Pattern::new("**/*").unwrap().matches_with(".bbb", options);
    assert!(f(&options_not_require_literal_leading_dot));
    assert!(!f(&options_require_literal_leading_dot));
}

#[test]
fn test_matches_path() {
    // the path is handed over as its text
    assert!(Pattern::new("a/b").unwrap().matches_path(Path::new("a/b").to_str()));
}

#[test]
fn test_path_join() {
    let pattern = Path::new("one").join(&Path::new("**/*.rs"));
    assert!(Pattern::new(pattern.to_str().unwrap()).is_ok());
}

#[test]
fn test_capture_two_stars() {
    let pat = Pattern::new("some/(**)/needle.txt").unwrap();
    assert_eq!(pat.captures("some/one/two/needle.txt").unwrap()
        .group(1).unwrap(), "one/two");
    assert_eq!(pat.captures("some/other/needle.txt").unwrap()
        .group(1).unwrap(), "other");
    assert!(pat.captures("some/other/not_this.txt").is_none());
    assert_eq!(pat.captures("some/needle.txt").unwrap().group(1).unwrap(), "");
    assert_eq!(pat.captures("some/one/needle.txt").unwrap()
        .group(1).unwrap(), "one");
}

#[test]
fn test_capture_star() {
    let opt = MatchOptions {
        require_literal_separator: true,
        .. MatchOptions::new()
    };
    let pat = Pattern::new("some/(*)/needle.txt").unwrap();
    assert!(pat.captures("some/needle.txt").is_none());
    assert_eq!(pat.captures("some/one/needle.txt").unwrap()
        .group(1).unwrap(), "one");
    assert!(pat.captures_with("some/one/two/needle.txt", &opt).is_none());
    assert_eq!(pat.captures("some/other/needle.txt").unwrap()
        .group(1).unwrap(), "other");
    assert!(pat.captures("some/other/not_this.txt").is_none());
}

#[test]
fn test_capture_name_start() {
    let opt = MatchOptions {
        require_literal_separator: true,
        .. MatchOptions::new()
    };
    let pat = Pattern::new("some/only-(*).txt").unwrap();
    assert!(pat.captures("some/needle.txt").is_none());
    assert!(pat.captures("some/one/only-x.txt").is_none());
    assert_eq!(pat.captures("some/only-file1.txt").unwrap()
        .group(1).unwrap(), "file1");
    assert_eq!(pat.captures("some/only-file2.txt").unwrap()
        .group(1).unwrap(), "file2");
    assert!(pat.captures_with("some/only-dir1/some.txt", &opt).is_none());
}

#[test]
fn test_capture_end() {
    let pat = Pattern::new("some/only-(*)").unwrap();
    assert!(pat.captures("some/needle.txt").is_none());
    assert_eq!(pat.captures("some/only-file1.txt").unwrap()
        .group(1).unwrap(), "file1.txt");
    assert_eq!(pat.captures("some/only-").unwrap()
        .group(1).unwrap(), "");
}

#[test]
fn test_capture_char() {
    let pat = Pattern::new("some/file(?).txt").unwrap();
    assert_eq!(pat.captures("some/file1.txt").unwrap()
        .group(1).unwrap(), "1");
    assert_eq!(pat.captures("some/file2.txt").unwrap()
        .group(1).unwrap(), "2");
    assert!(pat.captures("some/file12.txt").is_none());
    assert!(pat.captures("some/file.txt").is_none());
}

#[test]
fn test_paren_two_stars() {
    let pat = Pattern::new("some/(**)/needle.txt").unwrap();
    assert!(pat.matches("some/one/needle.txt"));
    assert!(pat.matches("some/one/two/needle.txt"));
    assert!(pat.matches("some/other/needle.txt"));
    assert!(!pat.matches("some/other/not_this.txt"));
    assert!(pat.matches("some/needle.txt"));
}

#[test]
fn test_paren_star() {
    let opt = MatchOptions {
        require_literal_separator: true,
        .. MatchOptions::new()
    };
    let pat = Pattern::new("some/(*)/needle.txt").unwrap();
    assert!(!pat.matches("some/needle.txt"));
    assert!(pat.matches("some/one/needle.txt"));
    assert!(!pat.matches_with("some/one/two/needle.txt", &opt));
    assert!(pat.matches("some/other/needle.txt"));
    assert!(!pat.matches("some/other/not_this.txt"));
}

#[test]
fn test_paren_name_start() {
    let opt = MatchOptions {
        require_literal_separator: true,
        .. MatchOptions::new()
    };
    let pat = Pattern::new("some/only-(*).txt").unwrap();
    assert!(!pat.matches("some/needle.txt"));
    assert!(!pat.matches("some/one/only-x.txt"));
    assert!(pat.matches("some/only-file1.txt"));
    assert!(pat.matches("some/only-file2.txt"));
    assert!(!pat.matches_with("some/only-dir1/some.txt", &opt));
}

#[test]
fn test_paren_end() {
    let pat = Pattern::new("some/only-(*)").unwrap();
    assert!(!pat.matches("some/needle.txt"));
    assert!(pat.matches("some/only-file1.txt"));
    assert!(pat.matches("some/only-"));
}

#[test]
fn test_paren_char() {
    let pat = Pattern::new("some/file(?).txt").unwrap();
    assert!(pat.matches("some/file1.txt"));
    assert!(pat.matches("some/file2.txt"));
    assert!(!pat.matches("some/file12.txt"));
    assert!(!pat.matches("some/file.txt"));
}
