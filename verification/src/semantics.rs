use vstd::prelude::*;

use crate::options::{MatchOptions, is_sep, spec_chars_eq, ascii_lower, is_ascii_char};
use crate::pattern::{Tok, is_capture, is_star, rec_placed, last_non_capture, may_precede_rec};
use crate::matching::{MatchResult, match_from, star_loop, single_ok, spec_matches};

verus! {

/// Whether `toks[ti..]` accepts `s[si..]`, where `follows` tells whether
/// `s[si]` starts a path component:
/// - a single-char token accepts one char that it allows;
/// - group boundaries accept the empty string;
/// - `*` consumes any chars, except a separator under
///   `require_literal_separator` and a leading `.` of a component under
///   `require_literal_leading_dot`;
/// - `**` consumes whole components, each with its separator, or all that is
///   left, none of them with a leading `.` under
///   `require_literal_leading_dot`.
pub open spec fn accepts(toks: Seq<Tok>, s: Seq<char>, ti: int, si: int, follows: bool, o: MatchOptions) -> bool
    decreases s.len() - si, toks.len() - ti, 1int,
{
    if ti < 0 || si < 0 || si > s.len() {
        false
    } else if ti >= toks.len() {
        si == s.len()
    } else if is_capture(toks[ti]) {
        accepts(toks, s, ti + 1, si, follows, o)
    } else if is_star(toks[ti]) {
        accepts(toks, s, ti + 1, si, follows, o) || consumes(toks, s, ti, si, follows, o)
    } else {
        si < s.len() && single_ok(toks[ti], s[si], follows, o) && accepts(
            toks,
            s,
            ti + 1,
            si + 1,
            is_sep(s[si]),
            o,
        )
    }
}

/// Whether the wildcard at `ti`, having consumed `s[..si]`, consumes `s[si]`
/// (and possibly more) and the rest of the pattern accepts what is left; at
/// the end of the string the rest of the pattern must accept the empty
/// remainder.
pub open spec fn consumes(toks: Seq<Tok>, s: Seq<char>, ti: int, si: int, follows: bool, o: MatchOptions) -> bool
    decreases s.len() - si, toks.len() - ti, 0int,
{
    if ti < 0 || ti >= toks.len() || si < 0 || si > s.len() {
        false
    } else if si == s.len() {
        accepts(toks, s, ti + 1, si, follows, o)
    } else {
        let c = s[si];
        if follows && o.require_literal_leading_dot && c == '.' {
            false
        } else if toks[ti] is AnyRec {
            if is_sep(c) {
                accepts(toks, s, ti, si + 1, true, o)
            } else {
                consumes(toks, s, ti, si + 1, false, o)
            }
        } else {
            !(o.require_literal_separator && is_sep(c)) && accepts(toks, s, ti, si + 1, is_sep(c), o)
        }
    }
}

/// Whether the first token at or after `ti` that is not a group boundary is
/// a `**`.
pub open spec fn next_is_rec(toks: Seq<Tok>, ti: int) -> bool
    decreases toks.len() - ti,
{
    if ti < 0 || ti >= toks.len() {
        false
    } else if is_capture(toks[ti]) {
        next_is_rec(toks, ti + 1)
    } else {
        toks[ti] is AnyRec
    }
}

/// Whether position `j` can be where `toks[ti..]` starts matching: a `**`
/// starts right after a separator or at the end.
pub open spec fn start_ok(toks: Seq<Tok>, s: Seq<char>, ti: int, j: int) -> bool {
    next_is_rec(toks, ti) ==> (is_sep(s[j - 1]) || j == s.len())
}

/// No later start position, with the follows flag that the string gives
/// there, is accepted by `toks[ti..]`.
pub open spec fn none_after(toks: Seq<Tok>, s: Seq<char>, ti: int, si: int, o: MatchOptions) -> bool {
    forall|j: int| #![trigger accepts(toks, s, ti, j, is_sep(s[j - 1]), o)]
        si < j <= s.len() && start_ok(toks, s, ti, j) ==> !accepts(toks, s, ti, j, is_sep(s[j - 1]), o)
}

/// `last_non_capture` of a prefix that ends in group boundaries after a
/// token that is not one.
proof fn lemma_last_non_capture_skip(toks: Seq<Tok>, ti: int, k: int)
    requires
        0 <= ti < k <= toks.len(),
        !is_capture(toks[ti]),
        forall|m: int| ti < m < k ==> is_capture(#[trigger] toks[m]),
    ensures
        last_non_capture(toks.take(k)) == Some(toks[ti]),
    decreases k - ti,
{
    assert(toks.take(k).drop_last() =~= toks.take(k - 1));
    if k > ti + 1 {
        lemma_last_non_capture_skip(toks, ti, k - 1);
    }
}

/// In a well-placed pattern only a separator or a `**` comes right before a
/// `**`.
proof fn lemma_before_rec(toks: Seq<Tok>, ti: int, k: int)
    requires
        rec_placed(toks),
        0 <= ti < k <= toks.len(),
        !is_capture(toks[ti]),
        forall|m: int| ti < m < k ==> is_capture(#[trigger] toks[m]),
        next_is_rec(toks, k),
    ensures
        may_precede_rec(Some(toks[ti])),
    decreases toks.len() - k,
{
    if is_capture(toks[k]) {
        lemma_before_rec(toks, ti, k + 1);
    } else {
        lemma_last_non_capture_skip(toks, ti, k);
        assert(toks[k] is AnyRec);
    }
}

proof fn lemma_next_is_rec_single(toks: Seq<Tok>, s: Seq<char>, ti: int, j: int, o: MatchOptions, f: bool)
    requires
        rec_placed(toks),
        0 <= ti < toks.len(),
        !is_capture(toks[ti]),
        !is_star(toks[ti]),
        0 <= j < s.len(),
        single_ok(toks[ti], s[j], f, o),
    ensures
        start_ok(toks, s, ti + 1, j + 1),
{
    if next_is_rec(toks, ti + 1) {
        lemma_before_rec(toks, ti, ti + 1);
        let c = s[j];
        match toks[ti] {
            Tok::Char(c2) => {
                assert(is_sep(c2));
                assert(spec_chars_eq(c, c2, o.case_sensitive));
                if !o.case_sensitive && is_ascii_char(c) && is_ascii_char(c2) {
                    assert(ascii_lower(c2) == '/');
                    if 'A' <= c && c <= 'Z' {
                        assert(((c as u32) + 32) as char != '/');
                    }
                }
            },
            _ => {},
        }
    }
}


/// Where a wildcard may stop: `**` only after a separator or at the end.
pub open spec fn stop_ok(toks: Seq<Tok>, s: Seq<char>, ti: int, j: int) -> bool {
    toks[ti] is AnyRec ==> (is_sep(s[j - 1]) || j == s.len())
}

/// A wildcard that consumes from `k` on stops at some later position where
/// the rest of the pattern accepts, or is at the end already.
proof fn lemma_consumes_witness(toks: Seq<Tok>, s: Seq<char>, ti: int, k: int, f: bool, o: MatchOptions)
    requires
        0 <= ti < toks.len(),
        is_star(toks[ti]),
        0 <= k <= s.len(),
        consumes(toks, s, ti, k, f, o),
    ensures
        (k == s.len() && accepts(toks, s, ti + 1, k, f, o)) || exists|j: int|
            k < j <= s.len() && stop_ok(toks, s, ti, j) && #[trigger] accepts(toks, s, ti + 1, j, is_sep(s[j - 1]), o),
    decreases s.len() - k,
{
    if k < s.len() {
        let c = s[k];
        let f2 = is_sep(c);
        let goal = (k == s.len() && accepts(toks, s, ti + 1, k, f, o)) || exists|j: int|
            k < j <= s.len() && stop_ok(toks, s, ti, j) && #[trigger] accepts(toks, s, ti + 1, j, is_sep(s[j - 1]), o);
        if toks[ti] is AnyRec && !f2 {
            assert(consumes(toks, s, ti, k + 1, false, o));
            lemma_consumes_witness(toks, s, ti, k + 1, false, o);
            if k + 1 == s.len() && accepts(toks, s, ti + 1, k + 1, false, o) {
                assert(stop_ok(toks, s, ti, k + 1));
                assert(accepts(toks, s, ti + 1, k + 1, is_sep(s[(k + 1) - 1]), o));
                assert(goal);
            } else {
                let j = choose|j: int|
                    k + 1 < j <= s.len() && stop_ok(toks, s, ti, j) && #[trigger] accepts(toks, s, ti + 1, j, is_sep(s[j - 1]), o);
                assert(goal);
            }
        } else {
            assert(accepts(toks, s, ti, k + 1, f2, o));
            assert(accepts(toks, s, ti, k + 1, f2, o) == (accepts(toks, s, ti + 1, k + 1, f2, o) || consumes(
                toks,
                s,
                ti,
                k + 1,
                f2,
                o,
            )));
            if accepts(toks, s, ti + 1, k + 1, f2, o) {
                assert(stop_ok(toks, s, ti, k + 1));
                assert(accepts(toks, s, ti + 1, k + 1, is_sep(s[(k + 1) - 1]), o));
                assert(goal);
            } else {
                lemma_consumes_witness(toks, s, ti, k + 1, f2, o);
                if k + 1 == s.len() && accepts(toks, s, ti + 1, k + 1, f2, o) {
                } else {
                    let j = choose|j: int|
                        k + 1 < j <= s.len() && stop_ok(toks, s, ti, j) && #[trigger] accepts(toks, s, ti + 1, j, is_sep(s[j - 1]), o);
                    assert(goal);
                }
            }
        }
    }
}

/// A stopping place of the wildcard at `ti` is a possible start of the rest
/// of the pattern.
proof fn lemma_stop_start(toks: Seq<Tok>, s: Seq<char>, ti: int, j: int)
    requires
        rec_placed(toks),
        0 <= ti < toks.len(),
        is_star(toks[ti]),
        stop_ok(toks, s, ti, j),
    ensures
        start_ok(toks, s, ti + 1, j),
{
    if next_is_rec(toks, ti + 1) {
        lemma_before_rec(toks, ti, ti + 1);
    }
}

/// When the rest of the pattern accepts no start after `si`, the wildcard
/// cannot consume from `k` on.
proof fn lemma_consumes_blocked(toks: Seq<Tok>, s: Seq<char>, ti: int, k: int, f: bool, o: MatchOptions, si: int)
    requires
        rec_placed(toks),
        0 <= ti < toks.len(),
        is_star(toks[ti]),
        0 <= si <= k <= s.len(),
        none_after(toks, s, ti + 1, si, o),
        k == si ==> !accepts(toks, s, ti + 1, si, f, o),
        k > si ==> f == is_sep(s[k - 1]),
    ensures
        !consumes(toks, s, ti, k, f, o),
{
    if consumes(toks, s, ti, k, f, o) {
        lemma_consumes_witness(toks, s, ti, k, f, o);
        if k == s.len() && accepts(toks, s, ti + 1, k, f, o) {
            if k > si {
                lemma_stop_start(toks, s, ti, k);
                assert(accepts(toks, s, ti + 1, k, is_sep(s[k - 1]), o));
            }
        } else {
            let j = choose|j: int|
                k < j <= s.len() && stop_ok(toks, s, ti, j) && #[trigger] accepts(toks, s, ti + 1, j, is_sep(s[j - 1]), o);
            lemma_stop_start(toks, s, ti, j);
        }
    }
}

/// The wildcard loop of the matcher finds a way to consume exactly when
/// there is one, and its early stop is sound.
proof fn lemma_star_loop_sound(toks: Seq<Tok>, s: Seq<char>, ti: int, si: int, fs: bool, o: MatchOptions)
    requires
        rec_placed(toks),
        0 <= ti < toks.len(),
        is_star(toks[ti]),
        0 <= si <= s.len(),
    ensures
        (star_loop(toks, s, ti, si, fs, o) == MatchResult::Match) == consumes(toks, s, ti, si, fs, o),
        star_loop(toks, s, ti, si, fs, o) == MatchResult::EntirePatternDoesntMatch ==> none_after(toks, s, ti, si, o),
    decreases s.len() - si, toks.len() - ti, 0int,
{
    if si == s.len() {
        lemma_match_sound(toks, s, ti + 1, si, fs, o);
    } else {
        let c = s[si];
        let f = is_sep(c);
        if fs && o.require_literal_leading_dot && c == '.' {
        } else if toks[ti] is AnyRec && !f {
            lemma_star_loop_sound(toks, s, ti, si + 1, f, o);
            if star_loop(toks, s, ti, si, fs, o) == MatchResult::EntirePatternDoesntMatch {
                assert forall|j: int| #![trigger accepts(toks, s, ti, j, is_sep(s[j - 1]), o)]
                    si < j <= s.len() && start_ok(toks, s, ti, j) implies !accepts(toks, s, ti, j, is_sep(s[j - 1]), o) by {
                    if j == si + 1 {
                        assert(j == s.len());
                    }
                }
            }
        } else if toks[ti] is AnySeq && o.require_literal_separator && f {
        } else {
            lemma_match_sound(toks, s, ti + 1, si + 1, f, o);
            let r1 = match_from(toks, s, ti + 1, si + 1, f, o);
            assert(consumes(toks, s, ti, si, fs, o) == accepts(toks, s, ti, si + 1, f, o));
            assert(accepts(toks, s, ti, si + 1, f, o) == (accepts(toks, s, ti + 1, si + 1, f, o) || consumes(
                toks,
                s,
                ti,
                si + 1,
                f,
                o,
            )));
            if r1 == MatchResult::EntirePatternDoesntMatch {
                lemma_consumes_blocked(toks, s, ti, si + 1, f, o, si + 1);
                assert forall|j: int| #![trigger accepts(toks, s, ti, j, is_sep(s[j - 1]), o)]
                    si < j <= s.len() && start_ok(toks, s, ti, j) implies !accepts(toks, s, ti, j, is_sep(s[j - 1]), o) by {
                    assert(next_is_rec(toks, ti) == (toks[ti] is AnyRec));
                    assert(stop_ok(toks, s, ti, j));
                    assert(accepts(toks, s, ti, j, is_sep(s[j - 1]), o) == (accepts(toks, s, ti + 1, j, is_sep(s[j - 1]), o)
                        || consumes(toks, s, ti, j, is_sep(s[j - 1]), o)));
                    if j > si + 1 {
                        lemma_stop_start(toks, s, ti, j);
                        lemma_consumes_blocked(toks, s, ti, j, is_sep(s[j - 1]), o, si + 1);
                    }
                }
            } else if r1 == MatchResult::SubPatternDoesntMatch {
                lemma_star_loop_sound(toks, s, ti, si + 1, f, o);
            }
        }
    }
}

/// The matcher answers `Match` exactly when the pattern accepts the string,
/// and when it gives up on the whole pattern, no later start is accepted
/// either.
proof fn lemma_match_sound(toks: Seq<Tok>, s: Seq<char>, ti: int, si: int, fs: bool, o: MatchOptions)
    requires
        rec_placed(toks),
        0 <= ti <= toks.len(),
        0 <= si <= s.len(),
    ensures
        (match_from(toks, s, ti, si, fs, o) == MatchResult::Match) == accepts(toks, s, ti, si, fs, o),
        match_from(toks, s, ti, si, fs, o) == MatchResult::EntirePatternDoesntMatch ==> none_after(toks, s, ti, si, o),
    decreases s.len() - si, toks.len() - ti, 1int,
{
    if ti >= toks.len() {
    } else if is_capture(toks[ti]) {
        lemma_match_sound(toks, s, ti + 1, si, fs, o);
        assert forall|j: int| #![trigger accepts(toks, s, ti, j, is_sep(s[j - 1]), o)]
            si < j <= s.len() && start_ok(toks, s, ti, j) implies (accepts(toks, s, ti, j, is_sep(s[j - 1]), o)
            == accepts(toks, s, ti + 1, j, is_sep(s[j - 1]), o)) && start_ok(toks, s, ti + 1, j) by {
        }
    } else if is_star(toks[ti]) {
        lemma_match_sound(toks, s, ti + 1, si, fs, o);
        let r0 = match_from(toks, s, ti + 1, si, fs, o);
        if r0 == MatchResult::EntirePatternDoesntMatch {
            lemma_consumes_blocked(toks, s, ti, si, fs, o, si);
            assert forall|j: int| #![trigger accepts(toks, s, ti, j, is_sep(s[j - 1]), o)]
                si < j <= s.len() && start_ok(toks, s, ti, j) implies !accepts(toks, s, ti, j, is_sep(s[j - 1]), o) by {
                assert(next_is_rec(toks, ti) == (toks[ti] is AnyRec));
                assert(stop_ok(toks, s, ti, j));
                assert(accepts(toks, s, ti, j, is_sep(s[j - 1]), o) == (accepts(toks, s, ti + 1, j, is_sep(s[j - 1]), o)
                    || consumes(toks, s, ti, j, is_sep(s[j - 1]), o)));
                lemma_stop_start(toks, s, ti, j);
                lemma_consumes_blocked(toks, s, ti, j, is_sep(s[j - 1]), o, si);
            }
        } else if r0 == MatchResult::SubPatternDoesntMatch {
            lemma_star_loop_sound(toks, s, ti, si, fs, o);
        }
    } else if si >= s.len() {
    } else if !single_ok(toks[ti], s[si], fs, o) {
    } else {
        lemma_match_sound(toks, s, ti + 1, si + 1, is_sep(s[si]), o);
        if match_from(toks, s, ti, si, fs, o) == MatchResult::EntirePatternDoesntMatch {
            assert forall|j: int| #![trigger accepts(toks, s, ti, j, is_sep(s[j - 1]), o)]
                si < j <= s.len() && start_ok(toks, s, ti, j) implies !accepts(toks, s, ti, j, is_sep(s[j - 1]), o) by {
                if j < s.len() && single_ok(toks[ti], s[j], is_sep(s[j - 1]), o) {
                    lemma_next_is_rec_single(toks, s, ti, j, o, is_sep(s[j - 1]));
                    assert(!accepts(toks, s, ti + 1, j + 1, is_sep(s[(j + 1) - 1]), o));
                }
            }
        }
    }
}

/// For every compiled pattern, matching gives exactly what the pattern
/// syntax describes: giving up early on the whole pattern when the string
/// runs out never loses a match.
pub proof fn law_matches_as_described(toks: Seq<Tok>, s: Seq<char>, o: MatchOptions)
    requires
        rec_placed(toks),
    ensures
        spec_matches(toks, s, o) == accepts(toks, s, 0, 0, true, o),
{
    lemma_match_sound(toks, s, 0, 0, true, o);
}


/// `strict` makes at least the restrictions that `loose` makes, with the
/// same case sensitivity.
pub open spec fn at_least_as_strict(strict: MatchOptions, loose: MatchOptions) -> bool {
    &&& strict.case_sensitive == loose.case_sensitive
    &&& loose.require_literal_separator ==> strict.require_literal_separator
    &&& loose.require_literal_leading_dot ==> strict.require_literal_leading_dot
}

proof fn lemma_accepts_loosen(toks: Seq<Tok>, s: Seq<char>, ti: int, si: int, follows: bool, strict: MatchOptions, loose: MatchOptions)
    requires
        at_least_as_strict(strict, loose),
    ensures
        accepts(toks, s, ti, si, follows, strict) ==> accepts(toks, s, ti, si, follows, loose),
    decreases s.len() - si, toks.len() - ti, 1int,
{
    if ti < 0 || si < 0 || si > s.len() {
    } else if ti >= toks.len() {
    } else if is_capture(toks[ti]) {
        lemma_accepts_loosen(toks, s, ti + 1, si, follows, strict, loose);
    } else if is_star(toks[ti]) {
        lemma_accepts_loosen(toks, s, ti + 1, si, follows, strict, loose);
        lemma_consumes_loosen(toks, s, ti, si, follows, strict, loose);
    } else if si < s.len() {
        lemma_accepts_loosen(toks, s, ti + 1, si + 1, is_sep(s[si]), strict, loose);
    }
}

proof fn lemma_consumes_loosen(toks: Seq<Tok>, s: Seq<char>, ti: int, si: int, follows: bool, strict: MatchOptions, loose: MatchOptions)
    requires
        at_least_as_strict(strict, loose),
    ensures
        consumes(toks, s, ti, si, follows, strict) ==> consumes(toks, s, ti, si, follows, loose),
    decreases s.len() - si, toks.len() - ti, 0int,
{
    if ti < 0 || ti >= toks.len() || si < 0 || si > s.len() {
    } else if si == s.len() {
        lemma_accepts_loosen(toks, s, ti + 1, si, follows, strict, loose);
    } else {
        let c = s[si];
        if toks[ti] is AnyRec {
            if is_sep(c) {
                lemma_accepts_loosen(toks, s, ti, si + 1, true, strict, loose);
            } else {
                lemma_consumes_loosen(toks, s, ti, si + 1, false, strict, loose);
            }
        } else {
            lemma_accepts_loosen(toks, s, ti, si + 1, is_sep(c), strict, loose);
        }
    }
}

/// Turning on `require_literal_separator` or `require_literal_leading_dot`
/// only takes matches away: what matches under the stricter options matches
/// under the looser ones.
pub proof fn law_restrictions_only_remove_matches(toks: Seq<Tok>, s: Seq<char>, strict: MatchOptions, loose: MatchOptions)
    requires
        rec_placed(toks),
        at_least_as_strict(strict, loose),
    ensures
        spec_matches(toks, s, strict) ==> spec_matches(toks, s, loose),
{
    law_matches_as_described(toks, s, strict);
    law_matches_as_described(toks, s, loose);
    lemma_accepts_loosen(toks, s, 0, 0, true, strict, loose);
}

} // verus!

verus! {

/// Under `require_literal_separator` only a literal `/` accepts a
/// separator, and under `require_literal_leading_dot` only a literal `.`
/// accepts a `.` that starts a component: `?`, `[...]` and `[!...]` are
/// all held to this.
pub proof fn law_only_literals_take_separator_and_dot(t: Tok, c: char, follows: bool, o: MatchOptions)
    ensures
        o.require_literal_separator && is_sep(c) && single_ok(t, c, follows, o) ==> t == Tok::Char('/'),
        o.require_literal_leading_dot && follows && c == '.' && single_ok(t, c, follows, o) ==> t == Tok::Char('.'),
{
}

/// A token other than the literal `/` and `**`.
pub open spec fn takes_no_separator(t: Tok) -> bool {
    t != Tok::Char('/') && !(t is AnyRec)
}

proof fn lemma_accepts_no_separator(toks: Seq<Tok>, s: Seq<char>, ti: int, si: int, follows: bool, o: MatchOptions)
    requires
        o.require_literal_separator,
        forall|t: int| 0 <= t < toks.len() ==> takes_no_separator(#[trigger] toks[t]),
    ensures
        accepts(toks, s, ti, si, follows, o) ==> forall|j: int| si <= j < s.len() ==> #[trigger] s[j] != '/',
    decreases s.len() - si, toks.len() - ti, 1int,
{
    if ti < 0 || si < 0 || si > s.len() {
    } else if ti >= toks.len() {
    } else if is_capture(toks[ti]) {
        lemma_accepts_no_separator(toks, s, ti + 1, si, follows, o);
    } else if is_star(toks[ti]) {
        lemma_accepts_no_separator(toks, s, ti + 1, si, follows, o);
        lemma_consumes_no_separator(toks, s, ti, si, follows, o);
    } else if si < s.len() {
        assert(takes_no_separator(toks[ti]));
        law_only_literals_take_separator_and_dot(toks[ti], s[si], follows, o);
        lemma_accepts_no_separator(toks, s, ti + 1, si + 1, is_sep(s[si]), o);
    }
}

proof fn lemma_consumes_no_separator(toks: Seq<Tok>, s: Seq<char>, ti: int, si: int, follows: bool, o: MatchOptions)
    requires
        o.require_literal_separator,
        forall|t: int| 0 <= t < toks.len() ==> takes_no_separator(#[trigger] toks[t]),
    ensures
        consumes(toks, s, ti, si, follows, o) ==> forall|j: int| si <= j < s.len() ==> #[trigger] s[j] != '/',
    decreases s.len() - si, toks.len() - ti, 0int,
{
    if ti < 0 || ti >= toks.len() || si < 0 || si > s.len() {
    } else if si == s.len() {
    } else {
        assert(takes_no_separator(toks[ti]));
        lemma_accepts_no_separator(toks, s, ti, si + 1, is_sep(s[si]), o);
    }
}

/// Under `require_literal_separator`, a pattern with neither a literal `/`
/// nor a `**` matches no text that holds a `/`.
pub proof fn law_separator_needs_literal(toks: Seq<Tok>, s: Seq<char>, o: MatchOptions, j: int)
    requires
        rec_placed(toks),
        o.require_literal_separator,
        forall|t: int| 0 <= t < toks.len() ==> takes_no_separator(#[trigger] toks[t]),
        0 <= j < s.len(),
        s[j] == '/',
    ensures
        !spec_matches(toks, s, o),
{
    law_matches_as_described(toks, s, o);
    lemma_accepts_no_separator(toks, s, 0, 0, true, o);
}

/// Position `j` of `s` starts a component.
pub open spec fn starts_component(s: Seq<char>, j: int) -> bool {
    j == 0 || is_sep(s[j - 1])
}

proof fn lemma_accepts_no_leading_dot(toks: Seq<Tok>, s: Seq<char>, ti: int, si: int, follows: bool, o: MatchOptions)
    requires
        o.require_literal_leading_dot,
        forall|t: int| 0 <= t < toks.len() ==> #[trigger] toks[t] != Tok::Char('.'),
        0 <= si <= s.len() ==> follows == starts_component(s, si),
    ensures
        accepts(toks, s, ti, si, follows, o) ==> forall|j: int|
            si <= j < s.len() && #[trigger] s[j] == '.' ==> !starts_component(s, j),
    decreases s.len() - si, toks.len() - ti, 1int,
{
    if ti < 0 || si < 0 || si > s.len() {
    } else if ti >= toks.len() {
    } else if is_capture(toks[ti]) {
        lemma_accepts_no_leading_dot(toks, s, ti + 1, si, follows, o);
    } else if is_star(toks[ti]) {
        lemma_accepts_no_leading_dot(toks, s, ti + 1, si, follows, o);
        lemma_consumes_no_leading_dot(toks, s, ti, si, follows, o);
    } else if si < s.len() {
        assert(toks[ti] != Tok::Char('.'));
        law_only_literals_take_separator_and_dot(toks[ti], s[si], follows, o);
        lemma_accepts_no_leading_dot(toks, s, ti + 1, si + 1, is_sep(s[si]), o);
    }
}

proof fn lemma_consumes_no_leading_dot(toks: Seq<Tok>, s: Seq<char>, ti: int, si: int, follows: bool, o: MatchOptions)
    requires
        o.require_literal_leading_dot,
        forall|t: int| 0 <= t < toks.len() ==> #[trigger] toks[t] != Tok::Char('.'),
        0 <= si <= s.len() ==> follows == starts_component(s, si),
    ensures
        consumes(toks, s, ti, si, follows, o) ==> forall|j: int|
            si <= j < s.len() && #[trigger] s[j] == '.' ==> !starts_component(s, j),
    decreases s.len() - si, toks.len() - ti, 0int,
{
    if ti < 0 || ti >= toks.len() || si < 0 || si > s.len() {
    } else if si == s.len() {
    } else {
        let c = s[si];
        if toks[ti] is AnyRec {
            if is_sep(c) {
                lemma_accepts_no_leading_dot(toks, s, ti, si + 1, true, o);
            } else {
                lemma_consumes_no_leading_dot(toks, s, ti, si + 1, false, o);
            }
        } else {
            lemma_accepts_no_leading_dot(toks, s, ti, si + 1, is_sep(c), o);
        }
    }
}

/// Under `require_literal_leading_dot`, a pattern without a literal `.`
/// matches no text in which a component starts with `.`.
pub proof fn law_leading_dot_needs_literal(toks: Seq<Tok>, s: Seq<char>, o: MatchOptions, j: int)
    requires
        rec_placed(toks),
        o.require_literal_leading_dot,
        forall|t: int| 0 <= t < toks.len() ==> #[trigger] toks[t] != Tok::Char('.'),
        0 <= j < s.len(),
        s[j] == '.',
        starts_component(s, j),
    ensures
        !spec_matches(toks, s, o),
{
    law_matches_as_described(toks, s, o);
    lemma_accepts_no_leading_dot(toks, s, 0, 0, true, o);
}

} // verus!
