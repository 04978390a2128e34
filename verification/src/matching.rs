use vstd::prelude::*;

use crate::options::{MatchOptions, is_sep, is_separator, spec_chars_eq, chars_eq, elem_at};
use crate::pattern::{Pattern, PatternToken, Tok, is_capture, is_star};
use crate::specifier::{in_specifiers, in_char_specifiers};
use crate::strings::str_chars;
use crate::semantics::{accepts, law_matches_as_described};

verus! {

/// The outcome of matching a pattern suffix against a string suffix.
#[derive(Clone, Copy, Debug, PartialEq, Eq, Structural)]
pub enum MatchResult {
    Match,
    /// This way of matching fails; others may still succeed.
    SubPatternDoesntMatch,
    /// The string ran out before the pattern did: no longer prefix consumed
    /// by an enclosing wildcard can help.
    EntirePatternDoesntMatch,
}

/// Whether a single-char token accepts `c`, where `follows` tells whether
/// `c` starts a path component.
pub open spec fn single_ok(t: Tok, c: char, follows: bool, o: MatchOptions) -> bool {
    if (t is AnyChar || t is Within || t is Except) && ((o.require_literal_separator && is_sep(c))
        || (follows && o.require_literal_leading_dot && c == '.')) {
        false
    } else {
        match t {
            Tok::AnyChar => true,
            Tok::Within(sp) => in_specifiers(sp, c, o.case_sensitive),
            Tok::Except(sp) => !in_specifiers(sp, c, o.case_sensitive),
            Tok::Char(c2) => spec_chars_eq(c, c2, o.case_sensitive),
            _ => false,
        }
    }
}

/// The result of matching `toks[ti..]` against `s[si..]`, trying the
/// shortest consumption of each wildcard first.
pub open spec fn match_from(toks: Seq<Tok>, s: Seq<char>, ti: int, si: int, follows: bool, o: MatchOptions) -> MatchResult
    decreases s.len() - si, toks.len() - ti, 1int,
{
    if ti < 0 || si < 0 || si > s.len() {
        MatchResult::SubPatternDoesntMatch
    } else if ti >= toks.len() {
        if si >= s.len() {
            MatchResult::Match
        } else {
            MatchResult::SubPatternDoesntMatch
        }
    } else if is_capture(toks[ti]) {
        match_from(toks, s, ti + 1, si, follows, o)
    } else if is_star(toks[ti]) {
        let r = match_from(toks, s, ti + 1, si, follows, o);
        if r != MatchResult::SubPatternDoesntMatch {
            r
        } else {
            star_loop(toks, s, ti, si, follows, o)
        }
    } else if si >= s.len() {
        MatchResult::EntirePatternDoesntMatch
    } else if !single_ok(toks[ti], s[si], follows, o) {
        MatchResult::SubPatternDoesntMatch
    } else {
        match_from(toks, s, ti + 1, si + 1, is_sep(s[si]), o)
    }
}

/// The wildcard at `ti` has consumed `s[..si]`, and the rest of the pattern
/// did not match right after it: it consumes `s[si]` and the rest of the
/// pattern is tried again. When the string is used up, the rest of the
/// pattern is matched against the empty remainder.
pub open spec fn star_loop(toks: Seq<Tok>, s: Seq<char>, ti: int, si: int, follows: bool, o: MatchOptions) -> MatchResult
    decreases s.len() - si, toks.len() - ti, 0int,
{
    if ti < 0 || ti >= toks.len() || si < 0 {
        MatchResult::SubPatternDoesntMatch
    } else if si >= s.len() {
        match_from(toks, s, ti + 1, si, follows, o)
    } else {
        let c = s[si];
        let f = is_sep(c);
        if follows && o.require_literal_leading_dot && c == '.' {
            MatchResult::SubPatternDoesntMatch
        } else if toks[ti] is AnyRec && !f {
            star_loop(toks, s, ti, si + 1, f, o)
        } else if toks[ti] is AnySeq && o.require_literal_separator && f {
            MatchResult::SubPatternDoesntMatch
        } else {
            let r = match_from(toks, s, ti + 1, si + 1, f, o);
            if r != MatchResult::SubPatternDoesntMatch {
                r
            } else {
                star_loop(toks, s, ti, si + 1, f, o)
            }
        }
    }
}

/// Whether the whole string matches the pattern tokens.
pub open spec fn spec_matches(toks: Seq<Tok>, s: Seq<char>, o: MatchOptions) -> bool {
    match_from(toks, s, 0, 0, true, o) == MatchResult::Match
}

/// Whether a single-char token accepts `c`.
pub(crate) fn single_token_accepts(t: &PatternToken, c: char, follows: bool, options: &MatchOptions) -> (b: bool)
    requires
        !is_capture(t@),
        !is_star(t@),
    ensures
        b == single_ok(t@, c, follows, *options),
{
    let is_sep = is_separator(c);
    let wildcard = match t {
        PatternToken::AnyChar | PatternToken::AnyWithin(..) | PatternToken::AnyExcept(..) => true,
        _ => false,
    };
    if wildcard && ((options.require_literal_separator && is_sep) || (follows
        && options.require_literal_leading_dot && c == '.')) {
        return false;
    }
    match t {
        PatternToken::AnyChar => true,
        PatternToken::AnyWithin(specifiers) => in_char_specifiers(specifiers.as_slice(), c, options),
        PatternToken::AnyExcept(specifiers) => !in_char_specifiers(specifiers.as_slice(), c, options),
        PatternToken::Char(c2) => chars_eq(c, *c2, options.case_sensitive),
        _ => false,
    }
}

impl Pattern {
    /// Matches `tokens[i..]` against `file[si..]`.
    pub(crate) fn matches_from(
        &self,
        follows_separator: bool,
        file: &[char],
        i: usize,
        si: usize,
        options: &MatchOptions,
    ) -> (r: MatchResult)
        requires
            i <= self.toks().len(),
            si <= file@.len(),
        ensures
            r == match_from(self.toks(), file@, i as int, si as int, follows_separator, *options),
        decreases file@.len() - si, self.toks().len() - i,
    {
        let ghost toks = self.toks();
        let ghost s = file@;
        let n = self.token_count();
        let len = file.len();
        let mut ti = i;
        let mut pos = si;
        let mut follows = follows_separator;
        while ti < n
            invariant
                toks == self.toks(),
                s == file@,
                n == toks.len(),
                len == s.len(),
                i <= ti <= n,
                si <= pos <= len,
                match_from(toks, s, i as int, si as int, follows_separator, *options)
                    == match_from(toks, s, ti as int, pos as int, follows, *options),
            decreases n - ti,
        {
            let token = self.token_at(ti);
            let ghost t = toks[ti as int];
            match token {
                PatternToken::AnySequence | PatternToken::AnyRecursiveSequence => {
                    let is_rec = match token {
                        PatternToken::AnyRecursiveSequence => true,
                        _ => false,
                    };
                    let m = self.matches_from(follows, file, ti + 1, pos, options);
                    if m != MatchResult::SubPatternDoesntMatch {
                        return m;
                    }
                    while pos < len
                        invariant
                            toks == self.toks(),
                            s == file@,
                            n == toks.len(),
                            len == s.len(),
                            i <= ti < n,
                            si <= pos <= len,
                            is_star(toks[ti as int]),
                            is_rec == (toks[ti as int] is AnyRec),
                            match_from(toks, s, i as int, si as int, follows_separator, *options)
                                == star_loop(toks, s, ti as int, pos as int, follows, *options),
                        decreases len - pos,
                    {
                        let c = elem_at(file, pos);
                        pos += 1;
                        if follows && options.require_literal_leading_dot && c == '.' {
                            return MatchResult::SubPatternDoesntMatch;
                        }
                        follows = is_separator(c);
                        if is_rec && !follows {
                        } else if !is_rec && options.require_literal_separator && follows {
                            return MatchResult::SubPatternDoesntMatch;
                        } else {
                            let m = self.matches_from(follows, file, ti + 1, pos, options);
                            if m != MatchResult::SubPatternDoesntMatch {
                                return m;
                            }
                        }
                    }
                },
                PatternToken::StartCapture(..) | PatternToken::EndCapture(..) => {},
                _ => {
                    if pos >= len {
                        return MatchResult::EntirePatternDoesntMatch;
                    }
                    let c = elem_at(file, pos);
                    if !single_token_accepts(token, c, follows, options) {
                        return MatchResult::SubPatternDoesntMatch;
                    }
                    follows = is_separator(c);
                    pos += 1;
                },
            }
            ti += 1;
        }
        if pos >= len {
            MatchResult::Match
        } else {
            MatchResult::SubPatternDoesntMatch
        }
    }
}

/// The options that `MatchOptions::new` gives.
pub open spec fn default_options() -> MatchOptions {
    MatchOptions { case_sensitive: true, require_literal_separator: false, require_literal_leading_dot: false }
}

impl Pattern {
    /// Whether `text` matches this pattern under the default options.
    pub fn matches(&self, text: &str) -> (b: bool)
        ensures
            b == spec_matches(self.toks(), text@, default_options()),
            b == accepts(self.toks(), text@, 0, 0, true, default_options()),
    {
        self.matches_with(text, &MatchOptions::new())
    }

    /// Whether a path, given as its text (`None` where it is not valid
    /// UTF-8), matches this pattern under the default options.
    pub fn matches_path(&self, path: Option<&str>) -> (b: bool)
        ensures
            b == (path matches Some(t) && spec_matches(self.toks(), t@, default_options())),
            b == (path matches Some(t) && accepts(self.toks(), t@, 0, 0, true, default_options())),
    {
        match path {
            Some(t) => self.matches(t),
            None => false,
        }
    }

    /// Whether `text` matches this pattern under `options`.
    pub fn matches_with(&self, text: &str, options: &MatchOptions) -> (b: bool)
        ensures
            b == spec_matches(self.toks(), text@, *options),
            b == accepts(self.toks(), text@, 0, 0, true, *options),
    {
        self.well_formed_tokens();
        proof {
            law_matches_as_described(self.toks(), text@, *options);
        }
        let chars = str_chars(text);
        self.matches_from(true, chars.as_slice(), 0, 0, options) == MatchResult::Match
    }

    /// Whether a path, given as its text (`None` where it is not valid
    /// UTF-8), matches this pattern under `options`.
    pub fn matches_path_with(&self, path: Option<&str>, options: &MatchOptions) -> (b: bool)
        ensures
            b == (path matches Some(t) && spec_matches(self.toks(), t@, *options)),
            b == (path matches Some(t) && accepts(self.toks(), t@, 0, 0, true, *options)),
    {
        match path {
            Some(t) => self.matches_with(t, options),
            None => false,
        }
    }
}

} // verus!
