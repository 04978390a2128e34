use std::collections::BTreeMap;
use std::io;
use std::path::Path;

use capturing_glob::walk::{Query, Reply, Step};
use capturing_glob::{glob, glob_with, Entries, Entry, GlobError, MatchOptions};

enum Node {
    File,
    Dir,
    Locked,
}

/// A file system held in memory, with `/work` as the current directory.
struct FakeFs {
    nodes: BTreeMap<String, Node>,
}

impl FakeFs {
    fn new() -> FakeFs {
        let mut nodes = BTreeMap::new();
        nodes.insert("/".to_string(), Node::Dir);
        nodes.insert("/work".to_string(), Node::Dir);
        FakeFs { nodes }
    }

    fn add(&mut self, path: &str, node: Node) {
        let full = normalize(path);
        let mut parent = String::new();
        for part in full.split('/').filter(|p| !p.is_empty()) {
            parent.push('/');
            parent.push_str(part);
            if parent != full && !self.nodes.contains_key(&parent) {
                self.nodes.insert(parent.clone(), Node::Dir);
            }
        }
        self.nodes.insert(full, node);
    }

    fn file(mut self, path: &str) -> FakeFs {
        self.add(path, Node::File);
        self
    }

    fn dir(mut self, path: &str) -> FakeFs {
        self.add(path, Node::Dir);
        self
    }

    fn locked(mut self, path: &str) -> FakeFs {
        self.add(path, Node::Locked);
        self
    }

    fn answer(&self, q: &Query) -> Reply {
        match q {
            // an empty path names nothing
            Query::IsDir(p) | Query::Exists(p) if p.is_empty() => Reply::Flag(false),
            Query::IsDir(p) => Reply::Flag(matches!(
                self.nodes.get(&normalize(p)),
                Some(Node::Dir) | Some(Node::Locked)
            )),
            Query::Exists(p) => Reply::Flag(self.nodes.contains_key(&normalize(p))),
            Query::ReadDir(p) => {
                let dir = normalize(p);
                match self.nodes.get(&dir) {
                    Some(Node::Dir) => {
                        let prefix = if dir == "/" { "/".to_string() } else { format!("{}/", dir) };
                        let mut names: Vec<String> = self
                            .nodes
                            .keys()
                            .filter(|k| k.len() > prefix.len() && k.starts_with(&prefix))
                            .map(|k| k[prefix.len()..].to_string())
                            .filter(|rest| !rest.contains('/'))
                            .collect();
                        // the order in which a directory is listed is not fixed
                        names.reverse();
                        Reply::Listing(names)
                    }
                    Some(Node::Locked) => Reply::Unreadable(io::Error::new(
                        io::ErrorKind::PermissionDenied,
                        "permission denied",
                    )),
                    _ => Reply::Unreadable(io::Error::new(io::ErrorKind::NotFound, "not found")),
                }
            }
        }
    }

    fn run(&self, mut entries: Entries) -> Vec<Result<Entry, GlobError>> {
        let mut out = Vec::new();
        let mut reply = None;
        loop {
            match entries.step(reply.take()) {
                Step::Ask(q) => reply = Some(self.answer(&q)),
                Step::Yield(r) => out.push(r),
                Step::Continue => {}
                Step::Finished => return out,
            }
        }
    }

    fn paths(&self, entries: Entries) -> Vec<String> {
        self.run(entries)
            .into_iter()
            .map(|r| r.unwrap().path().to_string())
            .collect()
    }
}

/// The absolute form of a path, `.` and `..` resolved, relative paths taken
/// from `/work`.
fn normalize(path: &str) -> String {
    let mut parts: Vec<&str> = Vec::new();
    if !path.starts_with('/') {
        parts.push("work");
    }
    for part in path.split('/') {
        match part {
            "" | "." => {}
            ".." => {
                parts.pop();
            }
            p => parts.push(p),
        }
    }
    format!("/{}", parts.join("/"))
}

fn pictures() -> FakeFs {
    FakeFs::new()
        .file("/media/pictures/kittens.jpg")
        .file("/media/pictures/puppies.jpg")
        .file("/media/pictures/hamsters.gif")
}

#[test]
fn test_glob_errors() {
    assert!(glob("a/**b").err().unwrap().pos == 4);
    assert!(glob("abc[def").err().unwrap().pos == 3);
}

#[test]
fn test_iteration_errors() {
    let fs = FakeFs::new().locked("/root").file("/root/secret");
    let iter = glob("/root/*").unwrap();
    let results = fs.run(iter);

    // GlobErrors shouldn't halt iteration
    let next = results.into_iter().next();
    assert!(next.is_some());

    let err = next.unwrap();
    assert!(err.is_err());

    let err = err.err().unwrap();
    assert!(Path::new(err.path()) == Path::new("/root"));
    assert!(err.error().kind() == io::ErrorKind::PermissionDenied);
}

#[test]
fn test_absolute_pattern() {
    let fs = FakeFs::new().file("/etc/hosts");
    assert!(fs.run(glob("/").unwrap()).into_iter().next().is_some());
    assert!(fs.run(glob("//").unwrap()).into_iter().next().is_some());
    assert!(fs.run(glob("/*").unwrap()).into_iter().next().is_some());
}

#[test]
fn test_lots_of_files() {
    let mut fs = FakeFs::new();
    for a in 0..6 {
        for b in 0..6 {
            for c in 0..6 {
                for d in 0..50 {
                    fs.add(&format!("/d{}/d{}/d{}/f{}", a, b, c, d), Node::File);
                }
            }
        }
    }
    let all = fs.run(glob("/*/*/*/*").unwrap());
    assert_eq!(all.len(), 6 * 6 * 6 * 50);
    assert!(all.into_iter().skip(10000).next().is_some());
}

#[test]
fn doc_example_groups_of_jpgs() {
    let fs = pictures();
    let found: Vec<(String, String)> = fs
        .run(glob("/media/pictures/(*).jpg").unwrap())
        .into_iter()
        .map(|r| {
            let e = r.unwrap();
            (e.path().to_string(), e.group(1).unwrap().to_string())
        })
        .collect();
    assert_eq!(
        found,
        vec![
            ("/media/pictures/kittens.jpg".to_string(), "kittens".to_string()),
            ("/media/pictures/puppies.jpg".to_string(), "puppies".to_string()),
        ]
    );
}

#[test]
fn entries_come_in_alphabetical_order() {
    let fs = FakeFs::new()
        .file("zeta.txt")
        .file("alpha.txt")
        .file("mid.txt")
        .file("beta/inner.txt")
        .file("Upper.txt");
    assert_eq!(
        fs.paths(glob("*.txt").unwrap()),
        vec!["Upper.txt", "alpha.txt", "mid.txt", "zeta.txt"]
    );
    assert_eq!(
        fs.paths(glob("**/*.txt").unwrap()),
        vec!["Upper.txt", "alpha.txt", "beta/inner.txt", "mid.txt", "zeta.txt"]
    );
}

#[test]
fn relative_pattern_in_subdirectories() {
    let fs = FakeFs::new()
        .file("src/lib.rs")
        .file("src/main.rs")
        .file("src/bin/tool.rs")
        .file("README.md");
    assert_eq!(fs.paths(glob("src/*.rs").unwrap()), vec!["src/lib.rs", "src/main.rs"]);
    assert_eq!(
        fs.paths(glob("src/**/*.rs").unwrap()),
        vec!["src/bin/tool.rs", "src/lib.rs", "src/main.rs"]
    );
    assert_eq!(fs.paths(glob("./src/*.rs").unwrap()), vec!["src/lib.rs", "src/main.rs"]);
}

#[test]
fn literal_pattern_is_checked_without_listing() {
    let fs = FakeFs::new().file("src/lib.rs");
    assert_eq!(fs.paths(glob("src/lib.rs").unwrap()), vec!["src/lib.rs"]);
    assert!(fs.paths(glob("src/none.rs").unwrap()).is_empty());
}

#[test]
fn trailing_separator_asks_for_directories() {
    let fs = FakeFs::new().file("a/file").dir("b").file("c");
    assert_eq!(fs.paths(glob("*/").unwrap()), vec!["a", "b"]);
    assert_eq!(fs.paths(glob("*").unwrap()), vec!["a", "b", "c"]);
}

#[test]
fn recursive_pattern_yields_directories_below() {
    let fs = FakeFs::new().file("a/b/c.txt").file("a/d/e/f.txt");
    assert_eq!(fs.paths(glob("a/**").unwrap()), vec!["a/b", "a/d", "a/d/e"]);
}

#[test]
fn dot_entries_need_a_leading_dot() {
    let fs = FakeFs::new().file("x/.hidden").file("x/shown");
    // the special entries are put on the work list after the listed ones,
    // so they come first, `.` before `..`
    assert_eq!(fs.paths(glob("x/.*").unwrap()), vec!["x/.", "x/..", "x/.hidden"]);
    assert_eq!(fs.paths(glob("x/.*/.hidden").unwrap()), vec!["x/./.hidden"]);
    assert_eq!(fs.paths(glob("x/*").unwrap()), vec!["x/.hidden", "x/shown"]);
    let opts = MatchOptions {
        case_sensitive: true,
        require_literal_separator: false,
        require_literal_leading_dot: true,
    };
    assert_eq!(fs.paths(glob_with("x/*", &opts).unwrap()), vec!["x/shown"]);
}

#[test]
fn case_insensitive_walk() {
    let fs = FakeFs::new().file("A.TXT").file("b.txt");
    let opts = MatchOptions {
        case_sensitive: false,
        require_literal_separator: false,
        require_literal_leading_dot: false,
    };
    assert_eq!(fs.paths(glob_with("*.txt", &opts).unwrap()), vec!["A.TXT", "b.txt"]);
    assert_eq!(fs.paths(glob("*.txt").unwrap()), vec!["b.txt"]);
}

#[test]
fn unreadable_directory_does_not_stop_the_walk() {
    let fs = FakeFs::new().locked("a").file("b/x");
    let results = fs.run(glob("*/*").unwrap());
    assert_eq!(results.len(), 2);
    let err = results[0].as_ref().err().unwrap();
    assert_eq!(err.path(), "a");
    assert_eq!(err.error().kind(), io::ErrorKind::PermissionDenied);
    assert!(err.to_string().starts_with("attempting to read `a` resulted in an error: "));
    assert_eq!(results[1].as_ref().unwrap().path(), "b/x");
}

#[test]
fn finished_walk_stays_finished() {
    let fs = FakeFs::new().file("one");
    let mut entries = glob("one").unwrap();
    let mut reply = None;
    let mut yielded = 0;
    loop {
        match entries.step(reply.take()) {
            Step::Ask(q) => reply = Some(fs.answer(&q)),
            Step::Yield(_) => yielded += 1,
            Step::Finished => break,
            _ => {}
        }
    }
    assert_eq!(yielded, 1);
    assert!(matches!(entries.step(None), Step::Finished));
    assert!(matches!(entries.step(Some(Reply::Flag(true))), Step::Finished));
}

#[test]
fn empty_pattern_finds_nothing() {
    let fs = FakeFs::new().file("a");
    assert!(fs.paths(glob("").unwrap()).is_empty());
}

#[test]
fn readme_package_json_groups() {
    let fs = FakeFs::new().file("web/package.json").file("api/package.json").file("docs/readme.md");
    let found: Vec<(String, String)> = fs
        .run(glob("(*)/package.json").unwrap())
        .into_iter()
        .map(|r| {
            let e = r.unwrap();
            (e.path().to_string(), e.group(1).unwrap().to_string())
        })
        .collect();
    assert_eq!(
        found,
        vec![
            ("api/package.json".to_string(), "api".to_string()),
            ("web/package.json".to_string(), "web".to_string()),
        ]
    );
}

#[test]
fn literal_and_recursive_results_carry_groups() {
    let fs = FakeFs::new().file("a/b/c.txt");
    let e: Vec<Entry> = fs.run(glob("(a)/(**)").unwrap()).into_iter().map(|r| r.unwrap()).collect();
    assert_eq!(e.len(), 1);
    assert_eq!(e[0].path(), "a/b");
    assert_eq!(e[0].group(1), Some("a"));
    assert_eq!(e[0].group(2), Some("b"));
    let e: Vec<Entry> = fs.run(glob("(a)/").unwrap()).into_iter().map(|r| r.unwrap()).collect();
    assert_eq!(e[0].path(), "a");
    assert_eq!(e[0].group(1), Some("a"));
}

#[test]
fn recursion_skips_hidden_directories_on_request() {
    let fs = FakeFs::new().file(".git/x.txt").file("src/y.txt").file("z.txt");
    let opts = MatchOptions {
        case_sensitive: true,
        require_literal_separator: false,
        require_literal_leading_dot: true,
    };
    assert_eq!(fs.paths(glob_with("**/*.txt", &opts).unwrap()), vec!["src/y.txt", "z.txt"]);
    assert_eq!(fs.paths(glob_with("**/.git", &opts).unwrap()), vec![".git"]);
    assert_eq!(
        fs.paths(glob("**/*.txt").unwrap()),
        vec![".git/x.txt", "src/y.txt", "z.txt"]
    );
}
