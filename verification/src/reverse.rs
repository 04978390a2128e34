use vstd::prelude::*;

use crate::options::{MatchOptions, is_sep, spec_chars_eq};
use crate::pattern::{Tok, ParseState, SpecError, is_capture, is_star, open_groups, starts_increasing, wf_tokens, plain,
    flagged, parse_pattern, parse_inv, lemma_parse_inv, initial_state, stack_numbers, last_non_capture};
use crate::matching::MatchResult;
use crate::substitute::SubstitutionError;
use crate::capture::{Groups, boundary, pad, record_start, record_end, capture_from, capture_star_loop,
    lemma_open_groups_started, ends_after_starts, groups_ready, spec_captures};
use crate::substitute::lemma_open_groups_prefix;

verus! {

/// Token `t` starts group `k`.
pub open spec fn starts_at(t: Tok, k: usize) -> bool {
    t matches Tok::Start(m, _) && m == k
}

/// Token `t` ends group `k`.
pub open spec fn ends_at(t: Tok, k: usize) -> bool {
    t matches Tok::End(m, _) && m == k
}

/// Some token of `ts` starts group `k`.
pub open spec fn started(ts: Seq<Tok>, k: usize) -> bool {
    exists|u: int| 0 <= u < ts.len() && starts_at(#[trigger] ts[u], k)
}

/// Some token of `ts` ends group `k`.
pub open spec fn ended(ts: Seq<Tok>, k: usize) -> bool {
    exists|u: int| 0 <= u < ts.len() && ends_at(#[trigger] ts[u], k)
}

/// No token from `ti` on starts group `k`.
pub open spec fn no_start_from(toks: Seq<Tok>, ti: int, k: usize) -> bool {
    forall|t: int| ti <= t < toks.len() ==> !starts_at(#[trigger] toks[t], k)
}

/// No token from `ti` on ends group `k`.
pub open spec fn no_end_from(toks: Seq<Tok>, ti: int, k: usize) -> bool {
    forall|t: int| ti <= t < toks.len() ==> !ends_at(#[trigger] toks[t], k)
}

proof fn lemma_record_start_frame(caps: Groups, n: usize, off: int, k: usize)
    ensures
        record_start(caps, n, off).len() >= caps.len(),
        record_start(caps, n, off).len() > n,
        record_start(caps, n, off)[n as int] == (off as usize, off as usize),
        k < caps.len() && k != n ==> record_start(caps, n, off)[k as int] == caps[k as int],
{
    let p = pad(caps, n + 1);
    if k < caps.len() {
        assert(p[k as int] == caps[k as int]);
    }
}

proof fn lemma_record_end_frame(caps: Groups, n: usize, off: int, k: usize)
    ensures
        record_end(caps, n, off).len() == caps.len(),
        k < caps.len() && k != n ==> record_end(caps, n, off)[k as int] == caps[k as int],
        k < caps.len() ==> record_end(caps, n, off)[k as int].0 == caps[k as int].0,
        n < caps.len() ==> record_end(caps, n, off)[n as int] == (caps[n as int].0, if off < caps[n as int].0 {
            caps[n as int].0
        } else {
            off as usize
        }),
{
}

/// The groups recorded by a capture token.
pub open spec fn record_token(t: Tok, s: Seq<char>, si: int, caps: Groups) -> Groups {
    match t {
        Tok::Start(n, flag) => record_start(caps, n, boundary(s, si, flag)),
        Tok::End(n, flag) => record_end(caps, n, boundary(s, si, flag)),
        _ => caps,
    }
}

proof fn lemma_record_token_frame(t: Tok, s: Seq<char>, si: int, caps: Groups, k: usize)
    ensures
        record_token(t, s, si, caps).len() >= caps.len(),
        k < caps.len() && !starts_at(t, k) ==> record_token(t, s, si, caps)[k as int].0 == caps[k as int].0,
        k < caps.len() && !starts_at(t, k) && !ends_at(t, k) ==> record_token(t, s, si, caps)[k as int]
            == caps[k as int],
{
    match t {
        Tok::Start(n, flag) => lemma_record_start_frame(caps, n, boundary(s, si, flag), k),
        Tok::End(n, flag) => lemma_record_end_frame(caps, n, boundary(s, si, flag), k),
        _ => {},
    }
}

/// Matching from token `ti` on records nothing for a group that no later
/// token starts or ends, and only grows the recorded groups.
pub proof fn lemma_capture_frame(
    toks: Seq<Tok>,
    s: Seq<char>,
    ti: int,
    si: int,
    follows: bool,
    o: MatchOptions,
    caps: Groups,
    k: usize,
)
    ensures
        capture_from(toks, s, ti, si, follows, o, caps).1.len() >= caps.len(),
        k < caps.len() && no_start_from(toks, ti, k) ==> capture_from(toks, s, ti, si, follows, o, caps).1[k as int].0
            == caps[k as int].0,
        k < caps.len() && no_start_from(toks, ti, k) && no_end_from(toks, ti, k) ==> capture_from(
            toks,
            s,
            ti,
            si,
            follows,
            o,
            caps,
        ).1[k as int] == caps[k as int],
    decreases s.len() - si, toks.len() - ti, 1int,
{
    if ti < 0 || si < 0 || si > s.len() {
    } else if ti >= toks.len() {
    } else if is_capture(toks[ti]) {
        let caps2 = record_token(toks[ti], s, si, caps);
        assert(capture_from(toks, s, ti, si, follows, o, caps) == capture_from(toks, s, ti + 1, si, follows, o, caps2));
        lemma_record_token_frame(toks[ti], s, si, caps, k);
        lemma_capture_frame(toks, s, ti + 1, si, follows, o, caps2, k);
    } else if is_star(toks[ti]) {
        lemma_capture_frame(toks, s, ti + 1, si, follows, o, caps, k);
        let (r, caps2) = capture_from(toks, s, ti + 1, si, follows, o, caps);
        if r == crate::matching::MatchResult::SubPatternDoesntMatch {
            lemma_star_frame(toks, s, ti, si, follows, o, caps2, k);
        }
    } else if si >= s.len() {
    } else if !crate::matching::single_ok(toks[ti], s[si], follows, o) {
    } else {
        lemma_capture_frame(toks, s, ti + 1, si + 1, crate::options::is_sep(s[si]), o, caps, k);
    }
}

/// `lemma_capture_frame` for the wildcard loop at `ti`.
pub proof fn lemma_star_frame(
    toks: Seq<Tok>,
    s: Seq<char>,
    ti: int,
    si: int,
    follows: bool,
    o: MatchOptions,
    caps: Groups,
    k: usize,
)
    ensures
        capture_star_loop(toks, s, ti, si, follows, o, caps).1.len() >= caps.len(),
        k < caps.len() && no_start_from(toks, ti, k) ==> capture_star_loop(toks, s, ti, si, follows, o, caps).1[k as int].0
            == caps[k as int].0,
        k < caps.len() && no_start_from(toks, ti, k) && no_end_from(toks, ti, k) ==> capture_star_loop(
            toks,
            s,
            ti,
            si,
            follows,
            o,
            caps,
        ).1[k as int] == caps[k as int],
    decreases s.len() - si, toks.len() - ti, 0int,
{
    if ti < 0 || ti >= toks.len() || si < 0 {
    } else if si >= s.len() {
        lemma_capture_frame(toks, s, ti + 1, si, follows, o, caps, k);
    } else {
        let c = s[si];
        let f = crate::options::is_sep(c);
        if follows && o.require_literal_leading_dot && c == '.' {
        } else if toks[ti] is AnyRec && !f {
            lemma_star_frame(toks, s, ti, si + 1, f, o, caps, k);
        } else if toks[ti] is AnySeq && o.require_literal_separator && f {
        } else {
            lemma_capture_frame(toks, s, ti + 1, si + 1, f, o, caps, k);
            let (r, caps2) = capture_from(toks, s, ti + 1, si + 1, f, o, caps);
            if r == crate::matching::MatchResult::SubPatternDoesntMatch {
                lemma_star_frame(toks, s, ti, si + 1, f, o, caps2, k);
            }
        }
    }
}


proof fn lemma_started_push(pre: Seq<Tok>, x: Tok)
    ensures
        forall|k: usize| #[trigger] started(pre.push(x), k) == (started(pre, k) || starts_at(x, k)),
        forall|k: usize| #[trigger] ended(pre.push(x), k) == (ended(pre, k) || ends_at(x, k)),
{
    let ts = pre.push(x);
    assert forall|k: usize| #[trigger] started(ts, k) == (started(pre, k) || starts_at(x, k)) by {
        if started(pre, k) {
            let u = choose|u: int| 0 <= u < pre.len() && starts_at(#[trigger] pre[u], k);
            assert(ts[u] == pre[u]);
        }
        if starts_at(x, k) {
            assert(ts[pre.len() as int] == x);
        }
        if started(ts, k) {
            let u = choose|u: int| 0 <= u < ts.len() && starts_at(#[trigger] ts[u], k);
            if u < pre.len() {
                assert(ts[u] == pre[u]);
            }
        }
    }
    assert forall|k: usize| #[trigger] ended(ts, k) == (ended(pre, k) || ends_at(x, k)) by {
        if ended(pre, k) {
            let u = choose|u: int| 0 <= u < pre.len() && ends_at(#[trigger] pre[u], k);
            assert(ts[u] == pre[u]);
        }
        if ends_at(x, k) {
            assert(ts[pre.len() as int] == x);
        }
        if ended(ts, k) {
            let u = choose|u: int| 0 <= u < ts.len() && ends_at(#[trigger] ts[u], k);
            if u < pre.len() {
                assert(ts[u] == pre[u]);
            }
        }
    }
}

proof fn lemma_starts_increasing_prefix(ts: Seq<Tok>, n: int)
    requires
        starts_increasing(ts),
        0 <= n <= ts.len(),
    ensures
        starts_increasing(ts.take(n)),
{
    let p = ts.take(n);
    assert forall|a: int, b: int|
        0 <= a < b < p.len() && #[trigger] p[a] is Start && #[trigger] p[b] is Start
            implies p[a]->Start_0 < p[b]->Start_0 by {
        assert(p[a] == ts[a] && p[b] == ts[b]);
    }
}

/// The groups open after `ts` are those that have started and not ended,
/// each once.
pub proof fn lemma_stack_contents(ts: Seq<Tok>)
    requires
        starts_increasing(ts),
        open_groups(ts) is Some,
    ensures
        open_groups(ts) matches Some(st) && st.no_duplicates()
            && forall|k: usize| #[trigger] st.contains(k) == (started(ts, k) && !ended(ts, k)),
    decreases ts.len(),
{
    if ts.len() == 0 {
        let st = open_groups(ts).unwrap();
        assert forall|k: usize| #[trigger] st.contains(k) == (started(ts, k) && !ended(ts, k)) by {
            assert(st.len() == 0);
        }
    } else {
        let pre = ts.drop_last();
        let x = ts.last();
        assert(pre.push(x) =~= ts);
        lemma_starts_increasing_prefix(ts, ts.len() - 1);
        assert(pre =~= ts.take(ts.len() - 1));
        lemma_stack_contents(pre);
        lemma_open_groups_started(pre);
        lemma_started_push(pre, x);
        let sp = open_groups(pre).unwrap();
        let st = open_groups(ts).unwrap();
        match x {
            Tok::Start(n, _) => {
                assert(!started(pre, n)) by {
                    if started(pre, n) {
                        let u = choose|u: int| 0 <= u < pre.len() && starts_at(#[trigger] pre[u], n);
                        assert(ts[u] == pre[u]);
                        assert(ts[ts.len() - 1] == x);
                        assert(ts[u] is Start && ts[ts.len() - 1] is Start);
                    }
                }
                assert(!ended(pre, n)) by {
                    if ended(pre, n) {
                        let t = choose|t: int| 0 <= t < pre.len() && ends_at(#[trigger] pre[t], n);
                        assert(pre[t] is End);
                        let u = choose|u: int| 0 <= u < t && (#[trigger] pre[u] matches Tok::Start(m, _) && m == pre[t]->End_0);
                        assert(starts_at(pre[u], n));
                    }
                }
                assert(!sp.contains(n));
                assert(st == sp.push(n));
                assert forall|k: usize| #[trigger] st.contains(k) == (started(ts, k) && !ended(ts, k)) by {
                    if st.contains(k) && k != n {
                        let i = choose|i: int| 0 <= i < st.len() && st[i] == k;
                        assert(sp[i] == k);
                    }
                    if sp.contains(k) {
                        let i = choose|i: int| 0 <= i < sp.len() && sp[i] == k;
                        assert(st[i] == k);
                    }
                    assert(st[st.len() - 1] == n);
                }
                assert forall|i: int, j: int| 0 <= i < st.len() && 0 <= j < st.len() && i != j implies st[i] != st[j] by {
                    if i < sp.len() && j < sp.len() {
                        assert(st[i] == sp[i] && st[j] == sp[j]);
                    } else if i < sp.len() {
                        assert(st[i] == sp[i]);
                        assert(sp.contains(st[i]));
                    } else {
                        assert(st[j] == sp[j]);
                        assert(sp.contains(st[j]));
                    }
                }
            },
            Tok::End(n, _) => {
                assert(sp.len() > 0 && sp.last() == n);
                assert(st == sp.drop_last());
                assert forall|k: usize| #[trigger] st.contains(k) == (started(ts, k) && !ended(ts, k)) by {
                    if st.contains(k) {
                        let i = choose|i: int| 0 <= i < st.len() && st[i] == k;
                        assert(sp[i] == k);
                        assert(sp[sp.len() - 1] == n);
                        assert(k != n);
                    }
                    if sp.contains(k) && k != n {
                        let i = choose|i: int| 0 <= i < sp.len() && sp[i] == k;
                        assert(i != sp.len() - 1);
                        assert(st[i] == k);
                    }
                }
                assert forall|i: int, j: int| 0 <= i < st.len() && 0 <= j < st.len() && i != j implies st[i] != st[j] by {
                    assert(st[i] == sp[i] && st[j] == sp[j]);
                }
            },
            _ => {
                assert(st == sp);
            },
        }
    }
}

/// In well-formed tokens no two tokens end the same group.
pub proof fn lemma_end_unique(toks: Seq<Tok>, t1: int, t2: int, k: usize)
    requires
        wf_tokens(toks),
        0 <= t1 < toks.len(),
        0 <= t2 < toks.len(),
        ends_at(toks[t1], k),
        ends_at(toks[t2], k),
    ensures
        t1 == t2,
{
    if t1 < t2 {
        lemma_end_before(toks, t1, t2, k);
    } else if t2 < t1 {
        lemma_end_before(toks, t2, t1, k);
    }
}

proof fn lemma_end_before(toks: Seq<Tok>, t1: int, t2: int, k: usize)
    requires
        wf_tokens(toks),
        0 <= t1 < t2 < toks.len(),
        ends_at(toks[t1], k),
    ensures
        !ends_at(toks[t2], k),
{
    if ends_at(toks[t2], k) {
        lemma_open_groups_prefix(toks, t2 + 1);
        let pre = toks.take(t2);
        assert(toks.take(t2 + 1) =~= pre.push(toks[t2]));
        assert(toks.take(t2 + 1).drop_last() =~= pre);
        lemma_starts_increasing_prefix(toks, t2);
        lemma_open_groups_prefix(toks, t2);
        lemma_stack_contents(pre);
        let st = open_groups(pre).unwrap();
        assert(st.len() > 0 && st.last() == k);
        assert(st.contains(k));
        assert(pre[t1] == toks[t1]);
        assert(ended(pre, k));
    }
}

/// In well-formed tokens no two tokens start the same group.
pub proof fn lemma_start_unique(toks: Seq<Tok>, t1: int, t2: int, k: usize)
    requires
        starts_increasing(toks),
        0 <= t1 < toks.len(),
        0 <= t2 < toks.len(),
        starts_at(toks[t1], k),
        starts_at(toks[t2], k),
    ensures
        t1 == t2,
{
    assert(toks[t1] is Start && toks[t2] is Start);
}


/// The positions `a` before and `b` after token `t` on a way through `s`
/// that matches.
pub open spec fn step_ok(t: Tok, s: Seq<char>, a: int, b: int, case_sensitive: bool) -> bool {
    &&& 0 <= a <= b <= s.len()
    &&& match t {
        Tok::Char(c) => b == a + 1 && spec_chars_eq(s[a], c, case_sensitive),
        Tok::Start(..) => b == a,
        Tok::End(..) => b == a,
        Tok::AnySeq => true,
        Tok::AnyRec => b == a || b == s.len() || (a < b && s[b - 1] == '/'),
        _ => b == a + 1,
    }
}

/// The step of `pos` at token `ti + j`.
pub open spec fn step_at(toks: Seq<Tok>, s: Seq<char>, ti: int, pos: Seq<int>, j: int, case_sensitive: bool) -> bool {
    step_ok(toks[ti + j], s, pos[j], pos[j + 1], case_sensitive)
}

/// `pos` is a way through `s` that matches `toks[ti..]`: the position before
/// each token and, last, the end of `s`.
pub open spec fn run_ok(toks: Seq<Tok>, s: Seq<char>, ti: int, pos: Seq<int>, case_sensitive: bool) -> bool {
    &&& 0 <= ti <= toks.len()
    &&& pos.len() == toks.len() - ti + 1
    &&& pos.last() == s.len()
    &&& forall|j: int| 0 <= j < toks.len() - ti ==> #[trigger] step_at(toks, s, ti, pos, j, case_sensitive)
}

/// What the groups hold for a group boundary `t` passed at position `p`.
pub open spec fn record_ok(t: Tok, s: Seq<char>, p: int, caps: Groups) -> bool {
    match t {
        Tok::Start(k, f) => k < caps.len() && caps[k as int].0 as int == boundary(s, p, f),
        Tok::End(k, f) => k < caps.len() && caps[k as int].1 as int == if boundary(s, p, f) < caps[k as int].0 {
            caps[k as int].0 as int
        } else {
            boundary(s, p, f)
        },
        _ => true,
    }
}

/// The record of the boundary at token `ti + j`.
pub open spec fn record_at(toks: Seq<Tok>, s: Seq<char>, ti: int, pos: Seq<int>, j: int, caps: Groups) -> bool {
    record_ok(toks[ti + j], s, pos[j], caps)
}

/// The groups hold, for each boundary of `toks[ti..]`, the position where
/// `pos` passes it.
pub open spec fn records(toks: Seq<Tok>, s: Seq<char>, ti: int, pos: Seq<int>, caps: Groups) -> bool {
    forall|j: int| 0 <= j < toks.len() - ti ==> #[trigger] record_at(toks, s, ti, pos, j, caps)
}

/// The tokens that `lemma_capture_run` works on.
pub open spec fn run_tokens(toks: Seq<Tok>, s: Seq<char>) -> bool {
    &&& wf_tokens(toks)
    &&& s.len() <= usize::MAX
}

proof fn lemma_prepend_run(
    toks: Seq<Tok>,
    s: Seq<char>,
    ti: int,
    si: int,
    pos2: Seq<int>,
    cs: bool,
    caps: Groups,
)
    requires
        0 <= ti < toks.len(),
        run_ok(toks, s, ti + 1, pos2, cs),
        records(toks, s, ti + 1, pos2, caps),
        step_ok(toks[ti], s, si, pos2[0], cs),
        record_ok(toks[ti], s, si, caps),
    ensures
        run_ok(toks, s, ti, seq![si] + pos2, cs),
        records(toks, s, ti, seq![si] + pos2, caps),
        (seq![si] + pos2)[0] == si,
{
    let pos = seq![si] + pos2;
    assert forall|j: int| 0 <= j < toks.len() - ti implies #[trigger] step_at(toks, s, ti, pos, j, cs) by {
        if j > 0 {
            assert(step_at(toks, s, ti + 1, pos2, j - 1, cs));
            assert(pos[j] == pos2[j - 1] && pos[j + 1] == pos2[j]);
            assert(ti + 1 + (j - 1) == ti + j);
        } else {
            assert(pos[0] == si && pos[1] == pos2[0]);
        }
    }
    assert forall|j: int| 0 <= j < toks.len() - ti implies #[trigger] record_at(toks, s, ti, pos, j, caps) by {
        if j > 0 {
            assert(record_at(toks, s, ti + 1, pos2, j - 1, caps));
            assert(pos[j] == pos2[j - 1]);
            assert(ti + 1 + (j - 1) == ti + j);
        }
    }
}

/// A match that records groups has a way through `s` along which the groups
/// record the positions of their boundaries.
pub proof fn lemma_capture_run(
    toks: Seq<Tok>,
    s: Seq<char>,
    ti: int,
    si: int,
    follows: bool,
    o: MatchOptions,
    caps: Groups,
) -> (pos: Seq<int>)
    requires
        run_tokens(toks, s),
        0 <= ti <= toks.len(),
        groups_ready(toks, ti, caps),
        capture_from(toks, s, ti, si, follows, o, caps).0 == MatchResult::Match,
    ensures
        run_ok(toks, s, ti, pos, o.case_sensitive),
        pos[0] == si,
        records(toks, s, ti, pos, capture_from(toks, s, ti, si, follows, o, caps).1),
    decreases s.len() - si, toks.len() - ti, 1int,
{
    let cs = o.case_sensitive;
    let fin = capture_from(toks, s, ti, si, follows, o, caps).1;
    if ti >= toks.len() {
        seq![si]
    } else if is_capture(toks[ti]) {
        let t = toks[ti];
        let caps2 = record_token(t, s, si, caps);
        assert(capture_from(toks, s, ti, si, follows, o, caps) == capture_from(toks, s, ti + 1, si, follows, o, caps2));
        assert(0 <= boundary(s, si, true) <= s.len());
        match t {
            Tok::Start(n, fl) => {
                lemma_record_start_frame(caps, n, boundary(s, si, fl), n);
            },
            Tok::End(n, fl) => {},
            _ => {},
        }
        assert forall|u: int| #![trigger toks[u]] 0 <= u < ti + 1 && toks[u] is Start implies toks[u]->Start_0
            < caps2.len() by {
            lemma_record_token_frame(t, s, si, caps, 0);
            if u < ti {
                assert(toks[u]->Start_0 < caps.len());
            }
        }
        let pos2 = lemma_capture_run(toks, s, ti + 1, si, follows, o, caps2);
        match t {
            Tok::Start(n, fl) => {
                assert forall|v: int| ti + 1 <= v < toks.len() implies !starts_at(#[trigger] toks[v], n) by {
                    if starts_at(toks[v], n) {
                        lemma_start_unique(toks, ti, v, n);
                    }
                }
                lemma_record_start_frame(caps, n, boundary(s, si, fl), n);
                lemma_capture_frame(toks, s, ti + 1, si, follows, o, caps2, n);
            },
            Tok::End(n, fl) => {
                lemma_open_groups_started(toks);
                assert(ends_after_starts(toks));
                assert(toks[ti] is End);
                let u = choose|u: int| 0 <= u < ti && (#[trigger] toks[u] matches Tok::Start(m, _) && m == toks[ti]->End_0);
                assert(n < caps.len());
                assert forall|v: int| ti + 1 <= v < toks.len() implies !starts_at(#[trigger] toks[v], n) by {
                    if starts_at(toks[v], n) {
                        lemma_start_unique(toks, u, v, n);
                    }
                }
                assert forall|v: int| ti + 1 <= v < toks.len() implies !ends_at(#[trigger] toks[v], n) by {
                    if ends_at(toks[v], n) {
                        lemma_end_unique(toks, ti, v, n);
                    }
                }
                lemma_record_end_frame(caps, n, boundary(s, si, fl), n);
                lemma_capture_frame(toks, s, ti + 1, si, follows, o, caps2, n);
            },
            _ => {},
        }
        lemma_prepend_run(toks, s, ti, si, pos2, cs, fin);
        seq![si] + pos2
    } else if is_star(toks[ti]) {
        let (r, caps2) = capture_from(toks, s, ti + 1, si, follows, o, caps);
        assert forall|u: int| #![trigger toks[u]] 0 <= u < ti + 1 && toks[u] is Start implies toks[u]->Start_0
            < caps.len() by {
            if u < ti {
                assert(toks[u]->Start_0 < caps.len());
            }
        }
        if r != MatchResult::SubPatternDoesntMatch {
            let pos2 = lemma_capture_run(toks, s, ti + 1, si, follows, o, caps);
            lemma_prepend_run(toks, s, ti, si, pos2, cs, fin);
            seq![si] + pos2
        } else {
            lemma_capture_frame(toks, s, ti + 1, si, follows, o, caps, 0);
            assert forall|u: int| #![trigger toks[u]] 0 <= u < ti && toks[u] is Start implies toks[u]->Start_0
                < caps2.len() by {
                assert(toks[u]->Start_0 < caps.len());
            }
            let pos2 = lemma_star_run(toks, s, ti, si, follows, o, caps2);
            assert(0 <= si <= s.len());
            if ti + 1 < toks.len() {
                assert(step_at(toks, s, ti + 1, pos2, 0, cs));
            } else {
                assert(pos2[0] == pos2.last());
            }
            lemma_prepend_run(toks, s, ti, si, pos2, cs, fin);
            seq![si] + pos2
        }
    } else {
        assert forall|u: int| #![trigger toks[u]] 0 <= u < ti + 1 && toks[u] is Start implies toks[u]->Start_0
            < caps.len() by {
            if u < ti {
                assert(toks[u]->Start_0 < caps.len());
            }
        }
        let pos2 = lemma_capture_run(toks, s, ti + 1, si + 1, is_sep(s[si]), o, caps);
        lemma_prepend_run(toks, s, ti, si, pos2, cs, fin);
        seq![si] + pos2
    }
}

/// `lemma_capture_run` for the wildcard loop at `ti`: the way through `s`
/// from the token after the wildcard, which starts at or after `si`.
pub proof fn lemma_star_run(
    toks: Seq<Tok>,
    s: Seq<char>,
    ti: int,
    si: int,
    follows: bool,
    o: MatchOptions,
    caps: Groups,
) -> (pos: Seq<int>)
    requires
        run_tokens(toks, s),
        0 <= ti < toks.len(),
        is_star(toks[ti]),
        groups_ready(toks, ti, caps),
        capture_star_loop(toks, s, ti, si, follows, o, caps).0 == MatchResult::Match,
    ensures
        run_ok(toks, s, ti + 1, pos, o.case_sensitive),
        pos[0] >= si,
        records(toks, s, ti + 1, pos, capture_star_loop(toks, s, ti, si, follows, o, caps).1),
        toks[ti] is AnyRec ==> pos[0] == s.len() || (pos[0] > si && s[pos[0] - 1] == '/'),
    decreases s.len() - si, toks.len() - ti, 0int,
{
    assert forall|u: int| #![trigger toks[u]] 0 <= u < ti + 1 && toks[u] is Start implies toks[u]->Start_0
        < caps.len() by {
        if u < ti {
            assert(toks[u]->Start_0 < caps.len());
        }
    }
    if si >= s.len() {
        lemma_capture_run(toks, s, ti + 1, si, follows, o, caps)
    } else {
        let c = s[si];
        let f = is_sep(c);
        if toks[ti] is AnyRec && !f {
            lemma_star_run(toks, s, ti, si + 1, f, o, caps)
        } else {
            let (r, caps2) = capture_from(toks, s, ti + 1, si + 1, f, o, caps);
            if r != MatchResult::SubPatternDoesntMatch {
                lemma_capture_run(toks, s, ti + 1, si + 1, f, o, caps)
            } else {
                lemma_capture_frame(toks, s, ti + 1, si + 1, f, o, caps, 0);
                assert forall|u: int| #![trigger toks[u]] 0 <= u < ti && toks[u] is Start implies toks[u]->Start_0
                    < caps2.len() by {
                    assert(toks[u]->Start_0 < caps.len());
                }
                lemma_star_run(toks, s, ti, si + 1, f, o, caps2)
            }
        }
    }
}


/// Along a way through `s`, positions never go back.
pub proof fn lemma_run_monotone(toks: Seq<Tok>, s: Seq<char>, ti: int, pos: Seq<int>, cs: bool, a: int, b: int)
    requires
        run_ok(toks, s, ti, pos, cs),
        0 <= a <= b < pos.len(),
    ensures
        pos[a] <= pos[b],
    decreases b - a,
{
    if a < b {
        assert(step_at(toks, s, ti, pos, a, cs));
        lemma_run_monotone(toks, s, ti, pos, cs, a + 1, b);
    }
}

proof fn lemma_take_push(ts: Seq<Tok>, m: int)
    requires
        0 <= m < ts.len(),
    ensures
        ts.take(m + 1) == ts.take(m).push(ts[m]),
        ts.take(m + 1).drop_last() == ts.take(m),
{
    assert(ts.take(m + 1) =~= ts.take(m).push(ts[m]));
    assert(ts.take(m + 1).drop_last() =~= ts.take(m));
}

/// The token that closes the group opened at `ti`, searched from `m` on,
/// where the groups open before `m` are `k` and then `rest`.
proof fn lemma_group_close_from(toks: Seq<Tok>, ti: int, k: usize, m: int, rest: Seq<usize>) -> (e: int)
    requires
        wf_tokens(toks),
        0 <= ti < m <= toks.len(),
        starts_at(toks[ti], k),
        open_groups(toks.take(m)) == Some(seq![k] + rest),
        forall|r: int| 0 <= r < rest.len() ==> #[trigger] rest[r] > k,
    ensures
        m <= e < toks.len(),
        ends_at(toks[e], k),
        crate::substitute::skip_group(toks, m, k) == e + 1,
        open_groups(toks.take(e + 1)) == Some(Seq::<usize>::empty()),
    decreases toks.len() - m,
{
    if m == toks.len() {
        assert(toks.take(m) =~= toks);
        assert((seq![k] + rest).len() > 0);
        assert(false);
    }
    let x = toks[m];
    lemma_open_groups_prefix(toks, m + 1);
    lemma_take_push(toks, m);
    crate::pattern::lemma_push_open_groups(toks.take(m), x);
    let stack = seq![k] + rest;
    match x {
        Tok::End(j, _) => {
            if rest.len() > 0 {
                assert(stack.last() == rest[rest.len() - 1]);
                assert(j != k);
                assert(stack.drop_last() =~= seq![k] + rest.drop_last());
                lemma_group_close_from(toks, ti, k, m + 1, rest.drop_last())
            } else {
                assert(stack.last() == k);
                assert(stack.drop_last() =~= Seq::<usize>::empty());
                m
            }
        },
        Tok::Start(j, _) => {
            assert(toks[ti] is Start && toks[m] is Start);
            assert(j > k);
            assert(stack.push(j) =~= seq![k] + rest.push(j));
            lemma_group_close_from(toks, ti, k, m + 1, rest.push(j))
        },
        _ => lemma_group_close_from(toks, ti, k, m + 1, rest),
    }
}

/// The group opened at `ti`, at the top level, closes at `e`, after which
/// no group is open; substitution resumes right after it.
pub proof fn lemma_group_close(toks: Seq<Tok>, ti: int, k: usize) -> (e: int)
    requires
        wf_tokens(toks),
        0 <= ti < toks.len(),
        starts_at(toks[ti], k),
        open_groups(toks.take(ti)) == Some(Seq::<usize>::empty()),
    ensures
        ti < e < toks.len(),
        ends_at(toks[e], k),
        crate::substitute::skip_group(toks, ti + 1, k) == e + 1,
        open_groups(toks.take(e + 1)) == Some(Seq::<usize>::empty()),
{
    lemma_take_push(toks, ti);
    crate::pattern::lemma_push_open_groups(toks.take(ti), toks[ti]);
    assert(Seq::<usize>::empty().push(k) =~= seq![k] + Seq::<usize>::empty());
    lemma_group_close_from(toks, ti, k, ti + 1, Seq::empty())
}

/// The text of each recorded group.
pub open spec fn group_texts(s: Seq<char>, caps: Groups) -> Seq<Seq<char>> {
    caps.map_values(|g: (usize, usize)| s.subrange(g.0 as int, g.1 as int))
}

/// A token that takes one char of the path.
pub open spec fn takes_char(t: Tok) -> bool {
    t is Char || t is AnyChar || t is Within || t is Except
}

/// What is asked of the group boundary at token `e` (see
/// `rec_groups_whole`).
pub open spec fn rec_group_ok(toks: Seq<Tok>, e: int) -> bool {
    &&& !(toks[e] is Start && flagged(toks[e]))
    &&& (toks[e] is End && flagged(toks[e])) ==> {
        &&& e >= 2
        &&& toks[e - 1] is AnyRec
        &&& toks[e - 2] is Start
        &&& toks[e - 2]->Start_0 == toks[e]->End_0
        &&& e + 1 < toks.len() ==> exists|u: int| e < u < toks.len() && takes_char(#[trigger] toks[u])
    }
}

/// The groups that meet a `**` are whole components `(**)`: no group starts
/// right after a `**`; a group that ends right after one holds just that
/// `**`; and where the pattern goes on after such a group, a later token
/// takes a char of the path.
pub open spec fn rec_groups_whole(toks: Seq<Tok>) -> bool {
    forall|e: int| 0 <= e < toks.len() ==> #[trigger] rec_group_ok(toks, e)
}

/// The path has no empty component: no `//`, no separator at the end, and
/// one at the start only where the pattern starts with a literal `/`.
pub open spec fn path_components_ok(toks: Seq<Tok>, s: Seq<char>) -> bool {
    &&& forall|i: int| #![trigger s[i], s[i + 1]] 0 <= i < s.len() - 1 ==> !(s[i] == '/' && s[i + 1] == '/')
    &&& s.len() > 0 ==> s.last() != '/'
    &&& s.len() > 0 && s[0] == '/' ==> toks.len() > 0 && toks[0] == Tok::Char('/')
}

/// The last token before `t` that is not a group boundary (`-1` for none).
proof fn lemma_last_non_capture_at(toks: Seq<Tok>, t: int) -> (u: int)
    requires
        0 <= t <= toks.len(),
    ensures
        -1 <= u < t,
        u == -1 ==> last_non_capture(toks.take(t)) is None,
        u >= 0 ==> last_non_capture(toks.take(t)) == Some(toks[u]) && !is_capture(toks[u]),
        forall|m: int| u < m < t ==> is_capture(#[trigger] toks[m]),
    decreases t,
{
    if t == 0 {
        -1
    } else {
        assert(toks.take(t).drop_last() =~= toks.take(t - 1));
        assert(toks.take(t).last() == toks[t - 1]);
        if is_capture(toks[t - 1]) {
            lemma_last_non_capture_at(toks, t - 1)
        } else {
            t - 1
        }
    }
}

/// Group boundaries do not move along the path.
proof fn lemma_captures_stay(toks: Seq<Tok>, s: Seq<char>, pos: Seq<int>, a: int, b: int)
    requires
        run_ok(toks, s, 0, pos, true),
        0 <= a <= b <= toks.len(),
        forall|m: int| a <= m < b ==> is_capture(#[trigger] toks[m]),
    ensures
        pos[a] == pos[b],
    decreases b - a,
{
    if a < b {
        assert(is_capture(toks[a]));
        assert(step_at(toks, s, 0, pos, a, true));
        lemma_captures_stay(toks, s, pos, a + 1, b);
    }
}

/// A `**` starts at the start of the path (where the pattern does not start
/// with a literal `/`), right after a separator, or at the end of the path.
proof fn lemma_rec_start(toks: Seq<Tok>, s: Seq<char>, pos: Seq<int>, t: int)
    requires
        run_tokens(toks, s),
        run_ok(toks, s, 0, pos, true),
        pos[0] == 0,
        0 <= t < toks.len(),
        toks[t] is AnyRec,
    ensures
        (pos[t] == 0 && toks[0] != Tok::Char('/')) || (pos[t] > 0 && s[pos[t] - 1] == '/') || pos[t] == s.len(),
    decreases t,
{
    assert(crate::pattern::rec_placed(toks));
    assert(toks[t] is AnyRec);
    let u = lemma_last_non_capture_at(toks, t);
    assert(crate::pattern::may_precede_rec(last_non_capture(toks.take(t))));
    lemma_captures_stay(toks, s, pos, u + 1, t);
    if u == -1 {
        lemma_captures_stay(toks, s, pos, 0, t);
        if t > 0 {
            assert(is_capture(toks[0]));
        }
    } else {
        assert(step_at(toks, s, 0, pos, u, true));
        match toks[u] {
            Tok::Char(c) => {
                assert(crate::options::is_sep(c));
            },
            Tok::AnyRec => {
                lemma_rec_start(toks, s, pos, u);
            },
            _ => {},
        }
    }
}

/// Where the path is consumed, a token that takes a char takes it before the
/// end of the path.
proof fn lemma_takes_char_before_end(toks: Seq<Tok>, s: Seq<char>, pos: Seq<int>, e: int, u: int)
    requires
        run_ok(toks, s, 0, pos, true),
        0 <= e < u < toks.len(),
        takes_char(toks[u]),
    ensures
        pos[e] < s.len(),
{
    assert(step_at(toks, s, 0, pos, u, true));
    lemma_run_monotone(toks, s, 0, pos, true, e, u);
    lemma_run_monotone(toks, s, 0, pos, true, u + 1, toks.len() as int);
}

/// The text substituted for the group that opens at `ti` and closes at `e`
/// is the part of the path that the group spans.
proof fn lemma_group_text(toks: Seq<Tok>, s: Seq<char>, pos: Seq<int>, caps: Groups, ti: int, k: usize, e: int)
    requires
        run_tokens(toks, s),
        run_ok(toks, s, 0, pos, true),
        pos[0] == 0,
        records(toks, s, 0, pos, caps),
        0 <= ti < e < toks.len(),
        starts_at(toks[ti], k),
        ends_at(toks[e], k),
        plain(toks) || (rec_groups_whole(toks) && path_components_ok(toks, s)),
    ensures
        group_texts(s, caps)[k as int] + crate::substitute::sep_after(toks, e + 1, group_texts(s, caps)[k as int])
            == s.subrange(pos[ti], pos[e]),
{
    assert(record_at(toks, s, 0, pos, ti, caps));
    if plain(toks) {
        assert(!flagged(toks[ti]) && !flagged(toks[e]));
    } else {
        assert(rec_group_ok(toks, ti));
        assert(rec_group_ok(toks, e));
    }
    assert(!flagged(toks[ti]));
    assert(record_at(toks, s, 0, pos, e, caps));
    assert(step_at(toks, s, 0, pos, e, true));
    assert(step_at(toks, s, 0, pos, ti, true));
    lemma_run_monotone(toks, s, 0, pos, true, ti, e);
    let a = pos[ti];
    let b = pos[e];
    assert(caps[k as int].0 as int == a);
    let c1 = caps[k as int].1 as int;
    assert(c1 == if boundary(s, b, flagged(toks[e])) < a { a } else { boundary(s, b, flagged(toks[e])) });
    let v = group_texts(s, caps)[k as int];
    assert(v == s.subrange(a, c1));
    if flagged(toks[e]) {
        lemma_rec_group_text(toks, s, pos, ti, k, e, v, c1);
    } else {
        assert(c1 == b);
        assert(crate::substitute::sep_after(toks, e + 1, v) =~= Seq::<char>::empty());
        assert(v + crate::substitute::sep_after(toks, e + 1, v) =~= s.subrange(a, b));
    }
}

/// `lemma_group_text` for a group `(**)`.
#[verifier::spinoff_prover]
#[verifier::rlimit(40)]
proof fn lemma_rec_group_text(toks: Seq<Tok>, s: Seq<char>, pos: Seq<int>, ti: int, k: usize, e: int, v: Seq<char>, c1: int)
    requires
        run_tokens(toks, s),
        run_ok(toks, s, 0, pos, true),
        pos[0] == 0,
        0 <= ti < e < toks.len(),
        starts_at(toks[ti], k),
        ends_at(toks[e], k),
        flagged(toks[e]),
        rec_groups_whole(toks),
        path_components_ok(toks, s),
        pos[ti] <= pos[e],
        c1 == if boundary(s, pos[e], true) < pos[ti] { pos[ti] } else { boundary(s, pos[e], true) },
        v == s.subrange(pos[ti], c1),
    ensures
        v + crate::substitute::sep_after(toks, e + 1, v) == s.subrange(pos[ti], pos[e]),
{
    let a = pos[ti];
    let b = pos[e];
    let sep = crate::substitute::sep_after(toks, e + 1, v);
    assert(rec_group_ok(toks, e));
    assert(toks[e - 2] is Start);
    assert(starts_at(toks[e - 2], k));
    lemma_start_unique(toks, ti, e - 2, k);
    assert(step_at(toks, s, 0, pos, ti, true));
    assert(step_at(toks, s, 0, pos, ti + 1, true));
    assert(step_at(toks, s, 0, pos, e, true));
    assert(pos[ti + 1] == a);
    assert(pos[ti + 2] == b);
    if b == a {
        assert(v =~= Seq::<char>::empty());
        assert(sep =~= Seq::<char>::empty());
        assert(v + sep =~= s.subrange(a, b));
    } else if s[b - 1] == '/' {
        if b == s.len() {
            assert(s.last() == '/');
        }
        if e + 1 == toks.len() {
            assert(pos[e + 1] == pos.last());
        }
        if b - 1 == a {
            lemma_rec_start(toks, s, pos, ti + 1);
            if a > 0 {
                assert(s[(a - 1) + 1] == s[a]);
                assert(!(s[a - 1] == '/' && s[(a - 1) + 1] == '/'));
            }
        }
        assert(c1 == b - 1);
        assert(v.len() > 0);
        assert(sep == seq!['/']);
        assert(v + sep =~= s.subrange(a, b));
    } else {
        assert(b == s.len());
        if e + 1 < toks.len() {
            let u = choose|u: int| e < u < toks.len() && takes_char(#[trigger] toks[u]);
            lemma_takes_char_before_end(toks, s, pos, e, u);
        }
        assert(c1 == b);
        assert(sep =~= Seq::<char>::empty());
        assert(v + sep =~= s.subrange(a, b));
    }
}

/// Substituting the recorded groups from a top-level token `ti` on gives
/// the rest of `s` from where the way through `s` stands at `ti`.
#[verifier::spinoff_prover]
#[verifier::rlimit(40)]
proof fn lemma_substitute_run(
    toks: Seq<Tok>,
    s: Seq<char>,
    pos: Seq<int>,
    caps: Groups,
    ti: int,
    acc: Seq<char>,
)
    requires
        run_tokens(toks, s),
        run_ok(toks, s, 0, pos, true),
        pos[0] == 0,
        records(toks, s, 0, pos, caps),
        0 <= ti <= toks.len(),
        open_groups(toks.take(ti)) == Some(Seq::<usize>::empty()),
        plain(toks) || (rec_groups_whole(toks) && path_components_ok(toks, s)),
    ensures
        (match crate::substitute::substitute_from(toks, group_texts(s, caps), ti, acc) {
            Ok(r) => r == acc + s.subrange(pos[ti], s.len() as int),
            Err(_) => true,
        }),
    decreases toks.len() - ti,
{
    let g = group_texts(s, caps);
    if ti == toks.len() {
        assert(pos[ti] == pos.last());
        assert(acc + s.subrange(pos[ti], s.len() as int) =~= acc);
    } else {
        let x = toks[ti];
        assert(step_at(toks, s, 0, pos, ti, true));
        assert(record_at(toks, s, 0, pos, ti, caps));
        lemma_open_groups_prefix(toks, ti + 1);
        lemma_take_push(toks, ti);
        crate::pattern::lemma_push_open_groups(toks.take(ti), x);
        match x {
            Tok::Char(c) => {
                lemma_substitute_run(toks, s, pos, caps, ti + 1, acc.push(c));
                assert(acc.push(c) + s.subrange(pos[ti + 1], s.len() as int) =~= acc + s.subrange(
                    pos[ti],
                    s.len() as int,
                ));
            },
            Tok::Start(k, fs) => {
                let e = lemma_group_close(toks, ti, k);
                assert(step_at(toks, s, 0, pos, e, true));
                lemma_run_monotone(toks, s, 0, pos, true, ti, e);
                let v = g[k as int];
                let sep = crate::substitute::sep_after(toks, e + 1, v);
                lemma_group_text(toks, s, pos, caps, ti, k, e);
                lemma_substitute_run(toks, s, pos, caps, e + 1, acc + v + sep);
                let b = pos[e];
                assert(pos[e + 1] == b);
                assert(0 <= pos[ti] <= b <= s.len());
                assert(v + sep == s.subrange(pos[ti], b));
                assert(s.subrange(pos[ti], b) + s.subrange(b, s.len() as int) =~= s.subrange(pos[ti], s.len() as int));
                assert(acc + v + sep + s.subrange(b, s.len() as int) =~= acc + (v + sep) + s.subrange(b, s.len() as int));
                assert(acc + v + sep + s.subrange(pos[e + 1], s.len() as int) =~= acc + s.subrange(
                    pos[ti],
                    s.len() as int,
                ));
            },
            _ => {},
        }
    }
}

/// A successful parse gives well-formed tokens, and without `**` plain ones.
pub proof fn lemma_parsed_tokens(p: Seq<char>, skip: bool)
    requires
        p.len() <= usize::MAX,
    ensures
        parse_pattern(p, skip) matches Ok(st) ==> wf_tokens(st.tokens) && (!st.is_recursive ==> plain(
            st.tokens,
        )),
{
    assert(stack_numbers(Seq::<(usize, usize)>::empty()) =~= Seq::<usize>::empty());
    assert(parse_inv(p, 0, initial_state(), false));
    lemma_parse_inv(p, 0, skip, initial_state(), false);
    if let Ok(st) = parse_pattern(p, skip) {
        assert(stack_numbers(st.stack) =~= Seq::<usize>::empty());
    }
}

/// What substituting back the groups that `s` captures under `toks` gives,
/// if `s` matches.
pub open spec fn resubstituted(toks: Seq<Tok>, s: Seq<char>, o: MatchOptions) -> Option<
    Result<Seq<char>, SubstitutionError>,
> {
    match spec_captures(toks, s, o) {
        Some(caps) => Some(crate::substitute::substitute_from(toks, group_texts(s, caps), 0, Seq::empty())),
        None => None,
    }
}

/// Substituting back the groups that a path captures gives the path again,
/// for a pattern without `**` matched case-sensitively, wherever the
/// substitution succeeds (every wildcard stands inside a group).
pub proof fn law_substitute_reverses_captures(p: Seq<char>, st: ParseState, s: Seq<char>, o: MatchOptions)
    requires
        parse_pattern(p, false) == Ok::<ParseState, SpecError>(st),
        !st.is_recursive,
        o.case_sensitive,
        p.len() <= usize::MAX,
        s.len() <= usize::MAX,
    ensures
        (match resubstituted(st.tokens, s, o) {
            Some(Ok(r)) => r == s,
            _ => true,
        }),
{
    let toks = st.tokens;
    lemma_parsed_tokens(p, false);
    if let Some(caps) = spec_captures(toks, s, o) {
        let pos = lemma_capture_run(toks, s, 0, 0, true, o, Seq::empty());
        assert(toks.take(0) =~= Seq::<Tok>::empty());
        lemma_substitute_run(toks, s, pos, caps, 0, Seq::empty());
        assert(Seq::<char>::empty() + s.subrange(0, s.len() as int) =~= s);
    }
}

/// Substituting back the groups that a path captures gives the path again
/// also for a pattern with `**`, matched case-sensitively, where the groups
/// that meet a `**` are whole components `(**)` (`rec_groups_whole`) and the
/// path has no empty component (`path_components_ok`), wherever the
/// substitution succeeds.
pub proof fn law_substitute_reverses_captures_with_rec(p: Seq<char>, st: ParseState, s: Seq<char>, o: MatchOptions)
    requires
        parse_pattern(p, false) == Ok::<ParseState, SpecError>(st),
        rec_groups_whole(st.tokens),
        path_components_ok(st.tokens, s),
        o.case_sensitive,
        p.len() <= usize::MAX,
        s.len() <= usize::MAX,
    ensures
        (match resubstituted(st.tokens, s, o) {
            Some(Ok(r)) => r == s,
            _ => true,
        }),
{
    let toks = st.tokens;
    lemma_parsed_tokens(p, false);
    if let Some(caps) = spec_captures(toks, s, o) {
        let pos = lemma_capture_run(toks, s, 0, 0, true, o, Seq::empty());
        assert(toks.take(0) =~= Seq::<Tok>::empty());
        lemma_substitute_run(toks, s, pos, caps, 0, Seq::empty());
        assert(Seq::<char>::empty() + s.subrange(0, s.len() as int) =~= s);
    }
}

/// The groups that a path captures say where a way through the path passes
/// the group boundaries: there is a sequence of positions in the path, one
/// before each token, that takes one char for each single-char token (equal
/// to it, or in its class), none for a group boundary, any run of chars for
/// `*`, whole components or the rest of the path for `**`, and ends at the
/// end of the path; each group starts where the way passes its `(` and ends
/// where it passes its `)` (a group next to a `**` leaving out the separator
/// there, and never ending before it starts).
pub proof fn law_captures_follow_a_match(toks: Seq<Tok>, s: Seq<char>, o: MatchOptions)
    requires
        wf_tokens(toks),
        s.len() <= usize::MAX,
        spec_captures(toks, s, o) is Some,
    ensures
        exists|pos: Seq<int>|
            run_ok(toks, s, 0, pos, o.case_sensitive) && pos[0] == 0 && records(
                toks,
                s,
                0,
                pos,
                spec_captures(toks, s, o).unwrap(),
            ),
{
    let pos = lemma_capture_run(toks, s, 0, 0, true, o, Seq::empty());
    assert(run_ok(toks, s, 0, pos, o.case_sensitive) && pos[0] == 0);
}

} // verus!
