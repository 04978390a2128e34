use vstd::prelude::*;
use vstd::string::{StringExecFns, StrSliceExecFns};

use crate::pattern::{Pattern, PatternToken, Tok, open_groups, wf_tokens, starts_increasing, lemma_push_open_groups, flagged};
use crate::strings::push_char;

verus! {

/// A pattern substitution error.
#[derive(Clone, Copy, Debug, PartialEq, Eq, Structural)]
pub enum SubstitutionError {
    /// No value was supplied for the capture group with this (0-based)
    /// number.
    MissingGroup(usize),
    /// A wildcard (`*`, `?`, `[..]`) stands outside of every capture group.
    UnexpectedWildcard,
}

/// The position right after the first end of group `idx` at or after `t`,
/// or the end of the tokens.
pub open spec fn skip_group(toks: Seq<Tok>, t: int, idx: usize) -> int
    decreases toks.len() - t,
{
    if t < 0 || t >= toks.len() {
        toks.len() as int
    } else if toks[t] matches Tok::End(j, _) && j == idx {
        t + 1
    } else {
        skip_group(toks, t + 1, idx)
    }
}

pub proof fn lemma_skip_group_bound(toks: Seq<Tok>, t: int, idx: usize)
    requires
        0 <= t,
    ensures
        t < skip_group(toks, t, idx) <= toks.len() || (t >= toks.len() && skip_group(toks, t, idx) == toks.len()),
    decreases toks.len() - t,
{
    if t < toks.len() {
        lemma_skip_group_bound(toks, t + 1, idx);
    }
}

/// The separator that follows a substituted group: where the group closes
/// right after a `**` (its end is flagged) and the pattern goes on, the
/// parser took the separator after the `**` into it; a group that enclosed
/// something gets it back.
pub open spec fn sep_after(toks: Seq<Tok>, e: int, value: Seq<char>) -> Seq<char> {
    if 0 < e < toks.len() && toks[e - 1] is End && flagged(toks[e - 1]) && value.len() > 0 {
        seq!['/']
    } else {
        Seq::empty()
    }
}

/// The text that substituting `groups` into `toks[ti..]` appends to `acc`:
/// literal chars are kept, each group is replaced by its value (followed by
/// the separator that a closing `**` took, see `sep_after`), and a wildcard
/// outside of every group is an error.
pub open spec fn substitute_from(toks: Seq<Tok>, groups: Seq<Seq<char>>, ti: int, acc: Seq<char>)
    -> Result<Seq<char>, SubstitutionError>
    decreases toks.len() - ti,
{
    if ti < 0 || ti >= toks.len() {
        Ok(acc)
    } else {
        match toks[ti] {
            Tok::Char(c) => substitute_from(toks, groups, ti + 1, acc.push(c)),
            Tok::Start(idx, _) => if idx < groups.len() {
                proof {
                    lemma_skip_group_bound(toks, ti + 1, idx);
                }
                let e = skip_group(toks, ti + 1, idx);
                substitute_from(toks, groups, e, acc + groups[idx as int] + sep_after(toks, e, groups[idx as int]))
            } else {
                Err(SubstitutionError::MissingGroup(idx))
            },
            Tok::End(..) => substitute_from(toks, groups, ti + 1, acc),
            _ => Err(SubstitutionError::UnexpectedWildcard),
        }
    }
}

pub open spec fn strs_view(groups: Seq<&str>) -> Seq<Seq<char>> {
    groups.map_values(|g: &str| g@)
}

fn str_at<'a>(groups: &[&'a str], i: usize) -> (g: &'a str)
    requires
        i < groups@.len(),
    ensures
        g@ == groups@[i as int]@,
{
    groups[i]
}

/// Prefixes of a sequence whose groups nest have groups that nest.
pub proof fn lemma_open_groups_prefix(ts: Seq<Tok>, k: int)
    requires
        open_groups(ts) is Some,
        0 <= k <= ts.len(),
    ensures
        open_groups(ts.take(k)) is Some,
    decreases ts.len(),
{
    if k < ts.len() {
        assert(ts.drop_last().take(k) =~= ts.take(k));
        lemma_open_groups_prefix(ts.drop_last(), k);
    } else {
        assert(ts.take(k) =~= ts);
    }
}

proof fn lemma_open_groups_step(ts: Seq<Tok>, k: int)
    requires
        0 <= k < ts.len(),
    ensures
        ts.take(k + 1) == ts.take(k).push(ts[k]),
{
    assert(ts.take(k + 1) =~= ts.take(k).push(ts[k]));
}

impl Pattern {
    /// Substitutes values into the capture groups: literal chars are kept and
    /// each group, with all it holds, is replaced by `capture_groups[n]`
    /// for the group numbered `n` from 0; a nonempty value of a group that
    /// closes right after a `**` gets back the separator that follows the
    /// `**` in the pattern. The result is not checked against the pattern.
    pub fn substitute(&self, capture_groups: &[&str]) -> (r: Result<String, SubstitutionError>)
        ensures
            match (r, substitute_from(self.toks(), strs_view(capture_groups@), 0, Seq::empty())) {
                (Ok(s), Ok(t)) => s@ == t,
                (Err(e), Err(f)) => e == f,
                _ => false,
            },
    {
        let n = self.token_count();
        let ghost toks = self.toks();
        let ghost groups = strs_view(capture_groups@);
        let mut result = String::new();
        let mut ti: usize = 0;
        proof {
            assert(toks.take(0) =~= Seq::<Tok>::empty());
        }
        while ti < n
            invariant
                toks == self.toks(),
                n == toks.len(),
                groups == strs_view(capture_groups@),
                ti <= n,
                wf_tokens(toks),
                ti < n ==> open_groups(toks.take(ti as int)) == Some(Seq::<usize>::empty()),
                substitute_from(toks, groups, 0, Seq::empty()) == substitute_from(toks, groups, ti as int, result@),
            decreases n - ti,
        {
            let ghost acc = result@;
            proof {
                lemma_open_groups_prefix(toks, ti + 1);
                lemma_open_groups_step(toks, ti as int);
                lemma_push_open_groups(toks.take(ti as int), toks[ti as int]);
            }
            match self.token_at(ti) {
                PatternToken::Char(c) => {
                    push_char(&mut result, *c);
                    ti += 1;
                },
                PatternToken::StartCapture(idx, _) => {
                    let idx = *idx;
                    if idx >= capture_groups.len() {
                        return Err(SubstitutionError::MissingGroup(idx));
                    }
                    let val = str_at(capture_groups, idx);
                    result.append(val);
                    let start = ti;
                    let mut k = ti + 1;
                    let ghost mut rest: Seq<usize> = Seq::empty();
                    loop
                        invariant_except_break
                            open_groups(toks.take(k as int)) == Some(seq![idx] + rest),
                            skip_group(toks, start + 1, idx) == skip_group(toks, k as int, idx),
                        invariant
                            toks == self.toks(),
                            n == toks.len(),
                            start < k <= n,
                            wf_tokens(toks),
                            toks[start as int] == Tok::Start(idx, toks[start as int]->Start_1),
                            forall|r: int| 0 <= r < rest.len() ==> #[trigger] rest[r] > idx,
                        ensures
                            k == skip_group(toks, start + 1, idx),
                            k < n ==> open_groups(toks.take(k as int)) == Some(Seq::<usize>::empty()),
                        decreases n - k,
                    {
                        if k >= n {
                            break;
                        }
                        proof {
                            lemma_open_groups_prefix(toks, k + 1);
                            lemma_open_groups_step(toks, k as int);
                            lemma_push_open_groups(toks.take(k as int), toks[k as int]);
                        }
                        let found = match self.token_at(k) {
                            PatternToken::EndCapture(i, _) => *i == idx,
                            _ => false,
                        };
                        let ghost stack = seq![idx] + rest;
                        if found {
                            proof {
                                if rest.len() > 0 {
                                    assert(stack.last() == rest[rest.len() - 1]);
                                }
                                assert(stack.drop_last() =~= Seq::<usize>::empty());
                            }
                            k += 1;
                            break;
                        }
                        proof {
                            match toks[k as int] {
                                Tok::Start(m, _) => {
                                    assert(toks[start as int] is Start && toks[k as int] is Start);
                                    assert(stack.push(m) =~= seq![idx] + rest.push(m));
                                    rest = rest.push(m);
                                },
                                Tok::End(m, _) => {
                                    assert(rest.len() > 0);
                                    assert(stack.drop_last() =~= seq![idx] + rest.drop_last());
                                    rest = rest.drop_last();
                                },
                                _ => {},
                            }
                        }
                        k += 1;
                    }
                    if k < n && val.unicode_len() > 0 {
                        let closes_rec = match self.token_at(k - 1) {
                            PatternToken::EndCapture(_, f) => *f,
                            _ => false,
                        };
                        if closes_rec {
                            push_char(&mut result, '/');
                        }
                    }
                    proof {
                        let sep = sep_after(toks, k as int, groups[idx as int]);
                        assert(result@ == acc + groups[idx as int] + sep);
                    }
                    ti = k;
                },
                PatternToken::EndCapture(..) => {
                    proof {
                        assert(false);
                    }
                    ti += 1;
                },
                _ => {
                    return Err(SubstitutionError::UnexpectedWildcard);
                },
            }
        }
        Ok(result)
    }
}

} // verus!

verus! {

/// Every group of `toks` has a number below `m`.
pub open spec fn groups_below(toks: Seq<Tok>, m: nat) -> bool {
    forall|t: int| 0 <= t < toks.len() && #[trigger] toks[t] is Start ==> toks[t]->Start_0 < m
}

/// Values past the pattern's groups are not looked at: where every group
/// number is below `m` and at least `m` values are given, substituting them
/// gives what substituting the first `m` of them gives.
pub proof fn law_extra_values_ignored(toks: Seq<Tok>, groups: Seq<Seq<char>>, m: nat, ti: int, acc: Seq<char>)
    requires
        groups_below(toks, m),
        m <= groups.len(),
    ensures
        substitute_from(toks, groups, ti, acc) == substitute_from(toks, groups.take(m as int), ti, acc),
    decreases toks.len() - ti,
{
    let cut = groups.take(m as int);
    if ti < 0 || ti >= toks.len() {
    } else {
        match toks[ti] {
            Tok::Char(c) => {
                law_extra_values_ignored(toks, groups, m, ti + 1, acc.push(c));
            },
            Tok::Start(idx, _) => {
                assert(toks[ti] is Start);
                assert(idx < m);
                assert(cut[idx as int] == groups[idx as int]);
                lemma_skip_group_bound(toks, ti + 1, idx);
                let e = skip_group(toks, ti + 1, idx);
                law_extra_values_ignored(
                    toks,
                    groups,
                    m,
                    e,
                    acc + groups[idx as int] + sep_after(toks, e, groups[idx as int]),
                );
            },
            Tok::End(..) => {
                law_extra_values_ignored(toks, groups, m, ti + 1, acc);
            },
            _ => {},
        }
    }
}

} // verus!
