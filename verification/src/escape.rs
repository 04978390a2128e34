use vstd::prelude::*;

use crate::options::{MatchOptions, elem_at, spec_chars_eq};
use crate::pattern::{Pattern, Tok, ParseState, parse_from, parse_pattern, initial_state, find_close,
    star_run};
use crate::specifier::{CharSpecifier, specifiers_from, in_specifiers, specifier_matches};
use crate::matching::{match_from, spec_matches, default_options, single_ok, MatchResult};
use crate::strings::{str_chars, push_char};

verus! {

/// The chars that have a meaning in patterns and are escaped.
pub open spec fn is_meta(c: char) -> bool {
    c == '?' || c == '*' || c == '[' || c == ']' || c == '(' || c == ')'
}

/// A char as it stands in an escaped pattern: metachars in brackets.
pub open spec fn escape_char(c: char) -> Seq<char> {
    if is_meta(c) {
        seq!['[', c, ']']
    } else {
        seq![c]
    }
}

/// `s` with each metachar surrounded by brackets.
pub open spec fn escape_text(s: Seq<char>) -> Seq<char>
    decreases s.len(),
{
    if s.len() == 0 {
        Seq::empty()
    } else {
        escape_text(s.drop_last()) + escape_char(s.last())
    }
}

impl Pattern {
    /// Escapes the metacharacters `?`, `*`, `[`, `]`, `(` and `)` by
    /// surrounding them in brackets. The result, compiled into a `Pattern`,
    /// matches the input string and nothing else (see
    /// `law_escape_matches_only_itself`).
    pub fn escape(s: &str) -> (r: String)
        ensures
            r@ == escape_text(s@),
    {
        let chars = str_chars(s);
        let cs = chars.as_slice();
        let mut escaped = String::new();
        let mut i: usize = 0;
        while i < cs.len()
            invariant
                i <= cs@.len(),
                cs@ == s@,
                escaped@ == escape_text(s@.take(i as int)),
            decreases cs@.len() - i,
        {
            let c = elem_at(cs, i);
            proof {
                assert(s@.take(i + 1).drop_last() =~= s@.take(i as int));
            }
            if c == '?' || c == '*' || c == '[' || c == ']' || c == '(' || c == ')' {
                push_char(&mut escaped, '[');
                push_char(&mut escaped, c);
                push_char(&mut escaped, ']');
            } else {
                push_char(&mut escaped, c);
            }
            i += 1;
            assert(escaped@ =~= escape_text(s@.take(i as int)));
        }
        assert(s@.take(i as int) =~= s@);
        escaped
    }
}

/// The token that an escaped char compiles to.
pub open spec fn escape_token(c: char) -> Tok {
    if is_meta(c) {
        Tok::Within(seq![CharSpecifier::SingleChar(c)])
    } else {
        Tok::Char(c)
    }
}

/// The tokens that the escaped form of `s` compiles to.
pub open spec fn escaped_tokens(s: Seq<char>) -> Seq<Tok> {
    s.map_values(|c: char| escape_token(c))
}

proof fn lemma_escape_prefix(s: Seq<char>, k: int)
    requires
        0 <= k < s.len(),
    ensures
        escape_text(s.take(k + 1)) == escape_text(s.take(k)) + escape_char(s[k]),
        escape_text(s) == escape_text(s.take(k + 1)) + escape_text(s).skip(escape_text(s.take(k + 1)).len() as int),
        escape_text(s.take(k + 1)).len() <= escape_text(s).len(),
    decreases s.len() - k,
{
    assert(s.take(k + 1).drop_last() =~= s.take(k));
    if k + 1 < s.len() {
        lemma_escape_prefix(s, k + 1);
        let a = escape_text(s.take(k + 1));
        let b = escape_text(s.take(k + 2));
        let e = escape_text(s);
        assert(b == a + escape_char(s[k + 1]));
        assert(e == a + e.skip(a.len() as int)) by {
            assert(e =~= a + e.skip(a.len() as int));
        }
    } else {
        assert(s.take(k + 1) =~= s);
        let e = escape_text(s);
        assert(e =~= e + e.skip(e.len() as int));
    }
}

/// Parsing the escaped text from the unit of the `k`-th char on yields the
/// literal tokens of the rest.
proof fn lemma_parse_escaped(s: Seq<char>, k: int, st: ParseState)
    requires
        0 <= k <= s.len(),
        st.stack.len() == 0,
    ensures
        parse_from(escape_text(s), escape_text(s.take(k)).len() as int, false, st, false) == Ok::<ParseState, crate::pattern::SpecError>(
            ParseState { tokens: st.tokens + escaped_tokens(s.skip(k)), ..st },
        ),
    decreases s.len() - k,
{
    let e = escape_text(s);
    let pos = escape_text(s.take(k)).len() as int;
    if k == s.len() {
        assert(s.take(k) =~= s);
        assert(escaped_tokens(s.skip(k)) =~= Seq::<Tok>::empty());
        assert(st.tokens + escaped_tokens(s.skip(k)) =~= st.tokens);
    } else {
        lemma_escape_prefix(s, k);
        let c = s[k];
        let unit = escape_char(c);
        let next = escape_text(s.take(k + 1)).len() as int;
        assert(next == pos + unit.len());
        assert forall|j: int| 0 <= j < unit.len() implies #[trigger] e[pos + j] == unit[j] by {
            assert(e[pos + j] == escape_text(s.take(k + 1))[pos + j]);
        }
        let t = escape_token(c);
        let st2 = st.push(t);
        lemma_parse_escaped(s, k + 1, st2);
        assert(escaped_tokens(s.skip(k)) =~= seq![t] + escaped_tokens(s.skip(k + 1)));
        assert(st.tokens + escaped_tokens(s.skip(k)) =~= st2.tokens + escaped_tokens(s.skip(k + 1)));
        if is_meta(c) {
            assert(e[pos] == '[');
            assert(e[pos + 1] == c);
            assert(e[pos + 2] == ']');
            assert(find_close(e, pos + 2) == Some(pos + 2));
            assert(e.subrange(pos + 1, pos + 2) =~= seq![c]);
            assert(specifiers_from(seq![c], 0) =~= seq![CharSpecifier::SingleChar(c)]) by {
                assert(specifiers_from(seq![c], 1) == Seq::<CharSpecifier>::empty());
            }
        } else {
            assert(e[pos] == c);
        }
    }
}

/// Literal tokens match exactly the string they were made from.
proof fn lemma_match_escaped(s: Seq<char>, t: Seq<char>, k: int, j: int, follows: bool)
    requires
        0 <= k <= s.len(),
        0 <= j <= t.len(),
    ensures
        (match_from(escaped_tokens(s), t, k, j, follows, default_options()) == MatchResult::Match)
            == (t.subrange(j, t.len() as int) == s.subrange(k, s.len() as int)),
    decreases s.len() - k,
{
    let toks = escaped_tokens(s);
    let o = default_options();
    if k == s.len() {
        if j < t.len() {
            assert(t.subrange(j, t.len() as int).len() > 0);
        } else {
            assert(t.subrange(j, t.len() as int) =~= s.subrange(k, s.len() as int));
        }
    } else if j >= t.len() {
        assert(t.subrange(j, t.len() as int).len() == 0);
    } else {
        let c = s[k];
        let x = t[j];
        assert(single_ok(toks[k], x, follows, o) == (x == c)) by {
            if is_meta(c) {
                let sp = seq![CharSpecifier::SingleChar(c)];
                if x == c {
                    assert(specifier_matches(sp[0], x, true));
                }
                assert(in_specifiers(sp, x, true) == (x == c));
            }
        }
        lemma_match_escaped(s, t, k + 1, j + 1, x == '/');
        if x == c {
            assert(t.subrange(j, t.len() as int) =~= seq![x] + t.subrange(j + 1, t.len() as int));
            assert(s.subrange(k, s.len() as int) =~= seq![c] + s.subrange(k + 1, s.len() as int));
            if t.subrange(j, t.len() as int) == s.subrange(k, s.len() as int) {
                assert(t.subrange(j + 1, t.len() as int) =~= t.subrange(j, t.len() as int).drop_first());
                assert(s.subrange(k + 1, s.len() as int) =~= s.subrange(k, s.len() as int).drop_first());
            }
        } else {
            assert(t.subrange(j, t.len() as int)[0] == x);
            assert(s.subrange(k, s.len() as int)[0] == c);
        }
    }
}

/// A string, escaped and compiled, is a valid pattern that matches that
/// string and nothing else under the default options.
pub proof fn law_escape_matches_only_itself(s: Seq<char>, t: Seq<char>)
    ensures
        parse_pattern(escape_text(s), false) matches Ok(st) && st.tokens == escaped_tokens(s)
            && (spec_matches(st.tokens, t, default_options()) == (t == s)),
{
    assert(s.take(0) =~= Seq::<char>::empty());
    assert(escape_text(s.take(0)).len() == 0);
    lemma_parse_escaped(s, 0, initial_state());
    assert(s.skip(0) =~= s);
    assert(Seq::<Tok>::empty() + escaped_tokens(s) =~= escaped_tokens(s));
    lemma_match_escaped(s, t, 0, 0, true);
    assert(t.subrange(0, t.len() as int) =~= t);
    assert(s.subrange(0, s.len() as int) =~= s);
}

} // verus!

verus! {

/// A char that escaping keeps as it is.
pub open spec fn kept_by_escape(c: char) -> bool {
    c != '?' && c != '*' && c != '[' && c != ']' && c != '(' && c != ')'
}

/// Escaping changes only the metacharacters `?`, `*`, `[`, `]`, `(` and
/// `)`: a text without them is its own escape.
pub proof fn law_escape_keeps_other_chars(s: Seq<char>)
    requires
        forall|k: int| 0 <= k < s.len() ==> kept_by_escape(#[trigger] s[k]),
    ensures
        escape_text(s) == s,
    decreases s.len(),
{
    if s.len() > 0 {
        let pre = s.drop_last();
        assert forall|k: int| 0 <= k < pre.len() implies kept_by_escape(#[trigger] pre[k]) by {
            assert(pre[k] == s[k]);
        }
        law_escape_keeps_other_chars(pre);
        assert(kept_by_escape(s[s.len() - 1]));
        assert(escape_text(s) =~= s);
    }
}

/// Escaped tokens accept the text they were made from from `k` on, under any
/// options.
proof fn lemma_escaped_match_any(s: Seq<char>, k: int, follows: bool, o: MatchOptions)
    requires
        0 <= k <= s.len(),
    ensures
        match_from(escaped_tokens(s), s, k, k, follows, o) == MatchResult::Match,
    decreases s.len() - k,
{
    if k < s.len() {
        let c = s[k];
        let t = escaped_tokens(s)[k];
        assert(t == escape_token(c));
        assert(single_ok(t, c, follows, o)) by {
            if is_meta(c) {
                assert(specifier_matches(CharSpecifier::SingleChar(c), c, o.case_sensitive));
                assert(seq![CharSpecifier::SingleChar(c)][0] == CharSpecifier::SingleChar(c));
            }
        }
        lemma_escaped_match_any(s, k + 1, crate::options::is_sep(c), o);
    }
}

/// The escape of any text compiles, and the pattern matches that text under
/// every set of options (a separator or a leading `.` is kept literal).
pub proof fn law_escape_matches_itself_under_any_options(s: Seq<char>, o: MatchOptions)
    ensures
        parse_pattern(escape_text(s), false) matches Ok(st) && spec_matches(st.tokens, s, o),
{
    law_escape_matches_only_itself(s, s);
    lemma_escaped_match_any(s, 0, true, o);
}

} // verus!
