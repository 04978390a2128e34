# capturing_glob

Matching of file paths against Unix shell style patterns, with capture
groups: `Pattern::captures` tells which part of a path each parenthesised
group of the pattern matched, and `Pattern::substitute` puts values back into
the groups.

The library in `src/` is written in Verus and verified:

- `pattern.rs` compiles pattern text into tokens; the compiler is specified by
  `parse_pattern`, and every compiled pattern is well formed (a type
  invariant).
- `matching.rs`, `capture.rs` match and capture; `semantics.rs` describes
  what a match is without backtracking and proves the matcher agrees with it.
- `substitute.rs`, `escape.rs`, `messages.rs` hold substitution, escaping and
  the error texts; `reverse.rs` proves that captured groups substituted back
  give the path again under case-sensitive matching, for patterns without
  `**` and for those whose groups meet a `**` only as whole `(**)`
  components when the path has no empty component; it also states where a
  way through the path passes the boundaries that the groups record.
- `glob.rs` and `walk.rs` hold the file system walk as a state machine: each
  `Entries::step` either asks a question about the file system, yields an
  entry (with the groups that the whole pattern captures in its path) or an
  error, or finishes.

`app/` answers the walk's questions with `std::fs` and offers the walk as an
iterator.
