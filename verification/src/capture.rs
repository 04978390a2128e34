use vstd::prelude::*;

use crate::options::{MatchOptions, is_sep, is_separator, elem_at};
use crate::pattern::{Pattern, PatternToken, Tok, is_capture, is_star, open_groups, wf_tokens};
use crate::entry::{Entry, groups_within};
use crate::strings::str_chars;
use crate::matching::{MatchResult, default_options, spec_matches, single_ok, single_token_accepts, match_from, star_loop};

verus! {

/// Capture offsets: for each group, the char positions where it starts and
/// ends.
pub type Groups = Seq<(usize, usize)>;

/// The position that a group boundary at `si` records: a group that encloses
/// a `**` leaves out the separator just before it.
pub open spec fn boundary(s: Seq<char>, si: int, flag: bool) -> int {
    if flag && 0 < si <= s.len() && s[si - 1] == '/' {
        si - 1
    } else {
        si
    }
}

/// `caps` grown with `(0, 0)` entries to at least `k` entries.
pub open spec fn pad(caps: Groups, k: int) -> Groups {
    if caps.len() >= k {
        caps
    } else {
        caps + Seq::new((k - caps.len()) as nat, |j: int| (0usize, 0usize))
    }
}

/// Records the start of group `n` at `off`.
pub open spec fn record_start(caps: Groups, n: usize, off: int) -> Groups {
    pad(caps, n + 1).update(n as int, (off as usize, off as usize))
}

/// Records the end of group `n` at `off`, but not before its start.
pub open spec fn record_end(caps: Groups, n: usize, off: int) -> Groups {
    if n < caps.len() {
        let start = caps[n as int].0;
        caps.update(n as int, (start, if off < start { start } else { off as usize }))
    } else {
        caps
    }
}

/// The search of `match_from`, also recording group boundaries as the
/// capture tokens are passed; the recorded offsets are kept across failed
/// tries and overwritten by later ones.
pub open spec fn capture_from(
    toks: Seq<Tok>,
    s: Seq<char>,
    ti: int,
    si: int,
    follows: bool,
    o: MatchOptions,
    caps: Groups,
) -> (MatchResult, Groups)
    decreases s.len() - si, toks.len() - ti, 1int,
{
    if ti < 0 || si < 0 || si > s.len() {
        (MatchResult::SubPatternDoesntMatch, caps)
    } else if ti >= toks.len() {
        if si >= s.len() {
            (MatchResult::Match, caps)
        } else {
            (MatchResult::SubPatternDoesntMatch, caps)
        }
    } else if is_capture(toks[ti]) {
        let caps2 = match toks[ti] {
            Tok::Start(n, flag) => record_start(caps, n, boundary(s, si, flag)),
            Tok::End(n, flag) => record_end(caps, n, boundary(s, si, flag)),
            _ => caps,
        };
        capture_from(toks, s, ti + 1, si, follows, o, caps2)
    } else if is_star(toks[ti]) {
        let (r, caps2) = capture_from(toks, s, ti + 1, si, follows, o, caps);
        if r != MatchResult::SubPatternDoesntMatch {
            (r, caps2)
        } else {
            capture_star_loop(toks, s, ti, si, follows, o, caps2)
        }
    } else if si >= s.len() {
        (MatchResult::EntirePatternDoesntMatch, caps)
    } else if !single_ok(toks[ti], s[si], follows, o) {
        (MatchResult::SubPatternDoesntMatch, caps)
    } else {
        capture_from(toks, s, ti + 1, si + 1, is_sep(s[si]), o, caps)
    }
}

/// `star_loop` with group recording.
pub open spec fn capture_star_loop(
    toks: Seq<Tok>,
    s: Seq<char>,
    ti: int,
    si: int,
    follows: bool,
    o: MatchOptions,
    caps: Groups,
) -> (MatchResult, Groups)
    decreases s.len() - si, toks.len() - ti, 0int,
{
    if ti < 0 || ti >= toks.len() || si < 0 {
        (MatchResult::SubPatternDoesntMatch, caps)
    } else if si >= s.len() {
        capture_from(toks, s, ti + 1, si, follows, o, caps)
    } else {
        let c = s[si];
        let f = is_sep(c);
        if follows && o.require_literal_leading_dot && c == '.' {
            (MatchResult::SubPatternDoesntMatch, caps)
        } else if toks[ti] is AnyRec && !f {
            capture_star_loop(toks, s, ti, si + 1, f, o, caps)
        } else if toks[ti] is AnySeq && o.require_literal_separator && f {
            (MatchResult::SubPatternDoesntMatch, caps)
        } else {
            let (r, caps2) = capture_from(toks, s, ti + 1, si + 1, f, o, caps);
            if r != MatchResult::SubPatternDoesntMatch {
                (r, caps2)
            } else {
                capture_star_loop(toks, s, ti, si + 1, f, o, caps2)
            }
        }
    }
}

/// Recording groups does not change whether the pattern matches.
pub proof fn lemma_capture_result(toks: Seq<Tok>, s: Seq<char>, ti: int, si: int, follows: bool, o: MatchOptions, caps: Groups)
    ensures
        capture_from(toks, s, ti, si, follows, o, caps).0 == match_from(toks, s, ti, si, follows, o),
    decreases s.len() - si, toks.len() - ti, 1int,
{
    if ti < 0 || si < 0 || si > s.len() {
    } else if ti >= toks.len() {
    } else if is_capture(toks[ti]) {
        let caps2 = match toks[ti] {
            Tok::Start(n, flag) => record_start(caps, n, boundary(s, si, flag)),
            Tok::End(n, flag) => record_end(caps, n, boundary(s, si, flag)),
            _ => caps,
        };
        lemma_capture_result(toks, s, ti + 1, si, follows, o, caps2);
    } else if is_star(toks[ti]) {
        lemma_capture_result(toks, s, ti + 1, si, follows, o, caps);
        let (r, caps2) = capture_from(toks, s, ti + 1, si, follows, o, caps);
        if r == MatchResult::SubPatternDoesntMatch {
            lemma_capture_star_result(toks, s, ti, si, follows, o, caps2);
        }
    } else if si >= s.len() {
    } else if !single_ok(toks[ti], s[si], follows, o) {
    } else {
        lemma_capture_result(toks, s, ti + 1, si + 1, is_sep(s[si]), o, caps);
    }
}

pub proof fn lemma_capture_star_result(toks: Seq<Tok>, s: Seq<char>, ti: int, si: int, follows: bool, o: MatchOptions, caps: Groups)
    ensures
        capture_star_loop(toks, s, ti, si, follows, o, caps).0 == star_loop(toks, s, ti, si, follows, o),
    decreases s.len() - si, toks.len() - ti, 0int,
{
    if ti < 0 || ti >= toks.len() || si < 0 {
    } else if si >= s.len() {
        lemma_capture_result(toks, s, ti + 1, si, follows, o, caps);
    } else {
        let c = s[si];
        let f = is_sep(c);
        if follows && o.require_literal_leading_dot && c == '.' {
        } else if toks[ti] is AnyRec && !f {
            lemma_capture_star_result(toks, s, ti, si + 1, f, o, caps);
        } else if toks[ti] is AnySeq && o.require_literal_separator && f {
        } else {
            lemma_capture_result(toks, s, ti + 1, si + 1, f, o, caps);
            let (r, caps2) = capture_from(toks, s, ti + 1, si + 1, f, o, caps);
            if r == MatchResult::SubPatternDoesntMatch {
                lemma_capture_star_result(toks, s, ti, si + 1, f, o, caps2);
            }
        }
    }
}

/// Every group that ends at some token has started at an earlier one.
pub open spec fn ends_after_starts(toks: Seq<Tok>) -> bool {
    forall|t: int| #![trigger toks[t]]
        0 <= t < toks.len() && toks[t] is End ==> exists|u: int|
            0 <= u < t && (#[trigger] toks[u] matches Tok::Start(m, _) && m == toks[t]->End_0)
}

/// Some token of `ts` starts group `n`.
pub open spec fn has_start(ts: Seq<Tok>, n: usize) -> bool {
    exists|u: int| 0 <= u < ts.len() && (#[trigger] ts[u] matches Tok::Start(m, _) && m == n)
}

/// The open groups have started, and every group end follows its start.
pub proof fn lemma_open_groups_started(ts: Seq<Tok>)
    ensures
        open_groups(ts) matches Some(stack) ==> (forall|k: int| 0 <= k < stack.len() ==> has_start(ts, #[trigger] stack[k])),
        open_groups(ts) is Some ==> ends_after_starts(ts),
    decreases ts.len(),
{
    if ts.len() > 0 {
        let pre = ts.drop_last();
        lemma_open_groups_started(pre);
        assert(pre.push(ts.last()) =~= ts);
        assert forall|n: usize| has_start(pre, n) implies has_start(ts, n) by {
            let u = choose|u: int| 0 <= u < pre.len() && (#[trigger] pre[u] matches Tok::Start(m, _) && m == n);
            assert(ts[u] == pre[u]);
        }
        if let Some(stack) = open_groups(ts) {
            let pstack = open_groups(pre).unwrap();
            match ts.last() {
                Tok::Start(n, _) => {
                    assert(ts[ts.len() - 1] matches Tok::Start(m, _) && m == n);
                    assert forall|k: int| 0 <= k < stack.len() implies has_start(ts, #[trigger] stack[k]) by {
                        if k < pstack.len() {
                            assert(stack[k] == pstack[k]);
                        }
                    }
                },
                Tok::End(n, _) => {
                    assert forall|k: int| 0 <= k < stack.len() implies has_start(ts, #[trigger] stack[k]) by {
                        assert(stack[k] == pstack[k]);
                    }
                    assert(has_start(pre, pstack[pstack.len() - 1]));
                },
                _ => {
                    assert forall|k: int| 0 <= k < stack.len() implies has_start(ts, #[trigger] stack[k]) by {
                        assert(stack[k] == pstack[k]);
                    }
                },
            }
            assert forall|t: int| #![trigger ts[t]] 0 <= t < ts.len() && ts[t] is End implies exists|u: int|
                0 <= u < t && (#[trigger] ts[u] matches Tok::Start(m, _) && m == ts[t]->End_0) by {
                if t < pre.len() {
                    assert(pre[t] == ts[t]);
                    let u = choose|u: int| 0 <= u < t && (#[trigger] pre[u] matches Tok::Start(m, _) && m == pre[t]->End_0);
                    assert(ts[u] == pre[u]);
                } else {
                    let n = ts[t]->End_0;
                    assert(has_start(pre, n));
                    let u = choose|u: int| 0 <= u < pre.len() && (#[trigger] pre[u] matches Tok::Start(m, _) && m == n);
                    assert(ts[u] == pre[u]);
                }
            }
        }
    }
}

/// Every group that starts before token `ti` has an entry in `caps`.
pub open spec fn groups_ready(toks: Seq<Tok>, ti: int, caps: Groups) -> bool {
    forall|u: int| #![trigger toks[u]]
        0 <= u < ti && toks[u] is Start ==> toks[u]->Start_0 < caps.len()
}


pub proof fn lemma_pad_step(caps: Groups, k: int)
    requires
        k >= caps.len(),
    ensures
        pad(caps, k + 1) == pad(caps, k).push((0usize, 0usize)),
{
    assert(pad(caps, k + 1) =~= pad(caps, k).push((0usize, 0usize)));
}

/// The entry for group `n` in `captures`.
fn group_at(captures: &Vec<(usize, usize)>, n: usize) -> (g: (usize, usize))
    requires
        n < captures@.len(),
    ensures
        g == captures@[n as int],
{
    captures[n]
}

/// The position that a group boundary at `pos` records.
fn boundary_exec(file: &[char], pos: usize, flag: bool) -> (off: usize)
    requires
        pos <= file@.len(),
    ensures
        off as int == boundary(file@, pos as int, flag),
{
    if flag && pos > 0 && elem_at(file, pos - 1) == '/' {
        pos - 1
    } else {
        pos
    }
}

impl Pattern {
    /// Matches `tokens[i..]` against `file[si..]` as `matches_from` does,
    /// recording group boundaries in `captures`.
    pub(crate) fn captures_from(
        &self,
        follows_separator: bool,
        file: &[char],
        i: usize,
        si: usize,
        captures: &mut Vec<(usize, usize)>,
        options: &MatchOptions,
    ) -> (r: MatchResult)
        requires
            i <= self.toks().len(),
            si <= file@.len(),
            ends_after_starts(self.toks()),
            groups_ready(self.toks(), i as int, old(captures)@),
        ensures
            (r, final(captures)@) == capture_from(
                self.toks(),
                file@,
                i as int,
                si as int,
                follows_separator,
                *options,
                old(captures)@,
            ),
            final(captures)@.len() >= old(captures)@.len(),
        decreases file@.len() - si, self.toks().len() - i,
    {
        let ghost toks = self.toks();
        let ghost s = file@;
        let ghost caps0 = captures@;
        let n = self.token_count();
        let len = file.len();
        let mut ti = i;
        let mut pos = si;
        let mut follows = follows_separator;
        while ti < n
            invariant
                toks == self.toks(),
                s == file@,
                n == toks.len(),
                len == s.len(),
                i <= ti <= n,
                si <= pos <= len,
                ends_after_starts(toks),
                groups_ready(toks, ti as int, captures@),
                captures@.len() >= caps0.len(),
                caps0 == old(captures)@,
                capture_from(toks, s, i as int, si as int, follows_separator, *options, caps0)
                    == capture_from(toks, s, ti as int, pos as int, follows, *options, captures@),
            decreases n - ti,
        {
            let token = self.token_at(ti);
            let ghost t = toks[ti as int];
            match token {
                PatternToken::AnySequence | PatternToken::AnyRecursiveSequence => {
                    let is_rec = match token {
                        PatternToken::AnyRecursiveSequence => true,
                        _ => false,
                    };
                    let m = self.captures_from(follows, file, ti + 1, pos, captures, options);
                    if m != MatchResult::SubPatternDoesntMatch {
                        return m;
                    }
                    while pos < len
                        invariant
                            toks == self.toks(),
                            s == file@,
                            n == toks.len(),
                            len == s.len(),
                            i <= ti < n,
                            si <= pos <= len,
                            is_star(toks[ti as int]),
                            is_rec == (toks[ti as int] is AnyRec),
                            ends_after_starts(toks),
                            groups_ready(toks, ti as int + 1, captures@),
                            captures@.len() >= caps0.len(),
                            caps0 == old(captures)@,
                            capture_from(toks, s, i as int, si as int, follows_separator, *options, caps0)
                                == capture_star_loop(toks, s, ti as int, pos as int, follows, *options, captures@),
                        decreases len - pos,
                    {
                        let c = elem_at(file, pos);
                        pos += 1;
                        if follows && options.require_literal_leading_dot && c == '.' {
                            return MatchResult::SubPatternDoesntMatch;
                        }
                        follows = is_separator(c);
                        if is_rec && !follows {
                        } else if !is_rec && options.require_literal_separator && follows {
                            return MatchResult::SubPatternDoesntMatch;
                        } else {
                            let m = self.captures_from(follows, file, ti + 1, pos, captures, options);
                            if m != MatchResult::SubPatternDoesntMatch {
                                return m;
                            }
                        }
                    }
                },
                PatternToken::StartCapture(g, flag) => {
                    let g = *g;
                    let off = boundary_exec(file, pos, *flag);
                    let ghost before = captures@;
                    while captures.len() <= g
                        invariant
                            before.len() <= captures@.len(),
                            captures@.len() <= if before.len() > g { before.len() as int } else { g + 1 },
                            captures@ == pad(before, captures@.len() as int),
                        decreases g + 1 - captures@.len(),
                    {
                        proof {
                            lemma_pad_step(before, captures@.len() as int);
                        }
                        captures.push((0, 0));
                    }
                    assert(captures@ == pad(before, g + 1));
                    captures.set(g, (off, off));
                    assert(groups_ready(toks, ti as int + 1, captures@));
                },
                PatternToken::EndCapture(g, flag) => {
                    let g = *g;
                    let mut off = boundary_exec(file, pos, *flag);
                    assert(toks[ti as int] is End);
                    let start = group_at(captures, g);
                    if off < start.0 {
                        off = start.0;
                    }
                    captures.set(g, (start.0, off));
                },
                _ => {
                    if pos >= len {
                        return MatchResult::EntirePatternDoesntMatch;
                    }
                    let c = elem_at(file, pos);
                    if !single_token_accepts(token, c, follows, options) {
                        return MatchResult::SubPatternDoesntMatch;
                    }
                    follows = is_separator(c);
                    pos += 1;
                },
            }
            ti += 1;
        }
        if pos >= len {
            MatchResult::Match
        } else {
            MatchResult::SubPatternDoesntMatch
        }
    }
}

proof fn lemma_record_within(caps: Groups, n: usize, b: int, len: nat, start: bool)
    requires
        groups_within(caps, len),
        0 <= b <= len,
        len <= usize::MAX,
    ensures
        start ==> groups_within(record_start(caps, n, b), len),
        !start ==> groups_within(record_end(caps, n, b), len),
{
    if start {
        let padded = pad(caps, n + 1);
        assert forall|k: int| 0 <= k < padded.len() implies #[trigger] padded[k].0 <= padded[k].1
            && padded[k].1 <= len by {
            if k >= caps.len() {
                assert(padded[k] == (0usize, 0usize));
            } else {
                assert(padded[k] == caps[k]);
                assert(caps[k].0 <= caps[k].1 && caps[k].1 <= len);
            }
        }
        let caps2 = record_start(caps, n, b);
        assert(padded.len() >= n + 1);
        assert forall|k: int| 0 <= k < caps2.len() implies #[trigger] caps2[k].0 <= caps2[k].1
            && caps2[k].1 <= len by {
            if k != n {
                assert(caps2[k] == padded[k]);
            } else {
                assert(caps2[k] == (b as usize, b as usize));
            }
        }
        assert(groups_within(caps2, len));
    } else {
        let caps2 = record_end(caps, n, b);
        assert forall|k: int| 0 <= k < caps2.len() implies #[trigger] caps2[k].0 <= caps2[k].1
            && caps2[k].1 <= len by {
            if k != n {
                assert(caps2[k] == caps[k]);
                assert(caps[k].0 <= caps[k].1 && caps[k].1 <= len);
            } else {
                assert(caps[k].0 <= caps[k].1 && caps[k].1 <= len);
                assert(caps2[k] == (caps[k].0, if b < caps[k].0 { caps[k].0 } else { b as usize }));
            }
        }
        assert(groups_within(caps2, len));
    }
}

/// Recording keeps every group inside the string.
pub proof fn lemma_capture_within(toks: Seq<Tok>, s: Seq<char>, ti: int, si: int, follows: bool, o: MatchOptions, caps: Groups)
    requires
        groups_within(caps, s.len()),
        s.len() <= usize::MAX,
    ensures
        groups_within(capture_from(toks, s, ti, si, follows, o, caps).1, s.len()),
    decreases s.len() - si, toks.len() - ti, 1int,
{
    if ti < 0 || si < 0 || si > s.len() {
    } else if ti >= toks.len() {
    } else if is_capture(toks[ti]) {
        let caps2 = match toks[ti] {
            Tok::Start(n, flag) => record_start(caps, n, boundary(s, si, flag)),
            Tok::End(n, flag) => record_end(caps, n, boundary(s, si, flag)),
            _ => caps,
        };
        match toks[ti] {
            Tok::Start(n, flag) => lemma_record_within(caps, n, boundary(s, si, flag), s.len(), true),
            Tok::End(n, flag) => lemma_record_within(caps, n, boundary(s, si, flag), s.len(), false),
            _ => {},
        }
        lemma_capture_within(toks, s, ti + 1, si, follows, o, caps2);
    } else if is_star(toks[ti]) {
        lemma_capture_within(toks, s, ti + 1, si, follows, o, caps);
        let (r, caps2) = capture_from(toks, s, ti + 1, si, follows, o, caps);
        if r == MatchResult::SubPatternDoesntMatch {
            lemma_capture_star_within(toks, s, ti, si, follows, o, caps2);
        }
    } else if si >= s.len() {
    } else if !single_ok(toks[ti], s[si], follows, o) {
    } else {
        lemma_capture_within(toks, s, ti + 1, si + 1, is_sep(s[si]), o, caps);
    }
}

pub proof fn lemma_capture_star_within(toks: Seq<Tok>, s: Seq<char>, ti: int, si: int, follows: bool, o: MatchOptions, caps: Groups)
    requires
        groups_within(caps, s.len()),
        s.len() <= usize::MAX,
    ensures
        groups_within(capture_star_loop(toks, s, ti, si, follows, o, caps).1, s.len()),
    decreases s.len() - si, toks.len() - ti, 0int,
{
    if ti < 0 || ti >= toks.len() || si < 0 {
    } else if si >= s.len() {
        lemma_capture_within(toks, s, ti + 1, si, follows, o, caps);
    } else {
        let c = s[si];
        let f = is_sep(c);
        if follows && o.require_literal_leading_dot && c == '.' {
        } else if toks[ti] is AnyRec && !f {
            lemma_capture_star_within(toks, s, ti, si + 1, f, o, caps);
        } else if toks[ti] is AnySeq && o.require_literal_separator && f {
        } else {
            lemma_capture_within(toks, s, ti + 1, si + 1, f, o, caps);
            let (r, caps2) = capture_from(toks, s, ti + 1, si + 1, f, o, caps);
            if r == MatchResult::SubPatternDoesntMatch {
                lemma_capture_star_within(toks, s, ti, si + 1, f, o, caps2);
            }
        }
    }
}

/// The groups that matching `s` against `toks` records, when it matches.
pub open spec fn spec_captures(toks: Seq<Tok>, s: Seq<char>, o: MatchOptions) -> Option<Groups> {
    let (r, caps) = capture_from(toks, s, 0, 0, true, o, Seq::empty());
    if r == MatchResult::Match {
        Some(caps)
    } else {
        None
    }
}

/// The entry that `captures` gives for a string of `text` and group ranges.
pub open spec fn entry_is(r: Option<Entry>, text: Seq<char>, groups: Option<Groups>) -> bool {
    match groups {
        Some(g) => r matches Some(e) && e.path_text() == text && e.group_ranges() == g,
        None => r is None,
    }
}

impl Pattern {
    /// The entry for `text` with its capture groups, if it matches this
    /// pattern under the default options.
    pub fn captures(&self, text: &str) -> (r: Option<Entry>)
        ensures
            entry_is(r, text@, spec_captures(self.toks(), text@, default_options())),
    {
        self.captures_with(text, &MatchOptions::new())
    }

    /// `captures` for a path given as its text (`None` where it is not
    /// valid UTF-8, which never matches).
    pub fn captures_path(&self, path: Option<&str>) -> (r: Option<Entry>)
        ensures
            match path {
                Some(t) => entry_is(r, t@, spec_captures(self.toks(), t@, default_options())),
                None => r is None,
            },
    {
        self.captures_path_with(path, &MatchOptions::new())
    }

    /// `captures_with` for a path given as its text (`None` where it is not
    /// valid UTF-8, which never matches).
    pub fn captures_path_with(&self, path: Option<&str>, options: &MatchOptions) -> (r: Option<Entry>)
        ensures
            match path {
                Some(t) => entry_is(r, t@, spec_captures(self.toks(), t@, *options)),
                None => r is None,
            },
    {
        match path {
            Some(t) => self.captures_with(t, options),
            None => None,
        }
    }

    /// The entry for `text` with its capture groups, if it matches this
    /// pattern under `options`.
    pub fn captures_with(&self, text: &str, options: &MatchOptions) -> (r: Option<Entry>)
        ensures
            entry_is(r, text@, spec_captures(self.toks(), text@, *options)),
    {
        let chars = str_chars(text);
        let mut buf: Vec<(usize, usize)> = Vec::new();
        let _ = self.token_count();
        proof {
            lemma_open_groups_started(self.toks());
            assert(text@.len() == chars@.len());
            lemma_capture_within(self.toks(), text@, 0, 0, true, *options, buf@);
        }
        match self.captures_from(true, chars.as_slice(), 0, 0, &mut buf, options) {
            MatchResult::Match => Some(Entry::with_captures(text.to_owned(), buf)),
            _ => None,
        }
    }
}

/// A string has capture groups under a pattern exactly when it matches the
/// pattern.
pub proof fn law_captures_iff_matches(toks: Seq<Tok>, s: Seq<char>, o: MatchOptions)
    ensures
        spec_captures(toks, s, o) is Some == spec_matches(toks, s, o),
{
    lemma_capture_result(toks, s, 0, 0, true, o, Seq::empty());
}

} // verus!
