use vstd::prelude::*;

verus! {

/// Configuration options that modify how a `Pattern` matches a string.
#[derive(Clone, Copy, Debug, PartialEq, Eq, Structural, Hash, Default, PartialOrd, Ord)]
pub struct MatchOptions {
    /// Whether or not patterns should be matched in a case-sensitive manner.
    /// This only considers upper/lower case relationships between ASCII
    /// characters.
    pub case_sensitive: bool,
    /// Whether or not path-component separator characters (`/`) must be
    /// matched by a literal `/`, rather than by `*` or `?` or `[...]`.
    pub require_literal_separator: bool,
    /// Whether or not path components that start with a `.` require that `.`
    /// appears literally in the pattern; `*`, `?`, `**`, or `[...]` will not
    /// match it.
    pub require_literal_leading_dot: bool,
}

impl MatchOptions {
    /// The options used by the functions that take no explicit options:
    /// case-sensitive, no literal separator, no literal leading dot.
    pub fn new() -> (o: MatchOptions)
        ensures
            o.case_sensitive,
            !o.require_literal_separator,
            !o.require_literal_leading_dot,
    {
        MatchOptions {
            case_sensitive: true,
            require_literal_separator: false,
            require_literal_leading_dot: false,
        }
    }
}

/// The path separator of the platform (`/`).
pub open spec fn is_sep(c: char) -> bool {
    c == '/'
}

/// Executable form of `is_sep`.
pub fn is_separator(c: char) -> (b: bool)
    ensures
        b == is_sep(c),
{
    c == '/'
}

pub open spec fn is_ascii_char(c: char) -> bool {
    (c as u32) < 128
}

/// ASCII lower-casing: `A`..=`Z` map to `a`..=`z`, every other char is kept.
pub open spec fn ascii_lower(c: char) -> char {
    if 'A' <= c && c <= 'Z' {
        ((c as u32) + 32) as char
    } else {
        c
    }
}

/// ASCII upper-casing: `a`..=`z` map to `A`..=`Z`, every other char is kept.
pub open spec fn ascii_upper(c: char) -> char {
    if 'a' <= c && c <= 'z' {
        ((c as u32) - 32) as char
    } else {
        c
    }
}

pub fn to_ascii_lower(c: char) -> (r: char)
    ensures
        r == ascii_lower(c),
{
    if 'A' <= c && c <= 'Z' {
        (((c as u32) + 32) as u8) as char
    } else {
        c
    }
}

/// Whether two chars are equal, ignoring ASCII case unless `case_sensitive`.
pub open spec fn spec_chars_eq(a: char, b: char, case_sensitive: bool) -> bool {
    if !case_sensitive && is_ascii_char(a) && is_ascii_char(b) {
        ascii_lower(a) == ascii_lower(b)
    } else {
        a == b
    }
}

pub fn chars_eq(a: char, b: char, case_sensitive: bool) -> (r: bool)
    ensures
        r == spec_chars_eq(a, b, case_sensitive),
{
    if !case_sensitive && (a as u32) < 128 && (b as u32) < 128 {
        to_ascii_lower(a) == to_ascii_lower(b)
    } else {
        a == b
    }
}

/// The char at `i` of a slice.
pub fn elem_at(s: &[char], i: usize) -> (x: char)
    requires
        i < s@.len(),
    ensures
        x == s@[i as int],
{
    s[i]
}

} // verus!
