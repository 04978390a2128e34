use vstd::prelude::*;

use crate::options::{MatchOptions, is_sep, elem_at};
use crate::pattern::{Pattern, PatternError, ParseState, SpecError, parse_pattern, new_options_post};
use crate::paths::{split_terminator, split_components, strings_view};
use crate::strings::{str_chars, string_from_chars};
use crate::walk::Entries;

verus! {

/// The number of leading chars of the pattern that name the root: one for
/// a leading separator.
pub open spec fn root_len(p: Seq<char>) -> int {
    if p.len() > 0 && is_sep(p[0]) {
        1
    } else {
        0
    }
}

/// Whether the pattern asks for directories only: it ends in a separator.
pub open spec fn requires_dir(p: Seq<char>) -> bool {
    p.len() > 0 && is_sep(p.last())
}

/// The text of the whole pattern: without a trailing separator and without
/// a leading `./`.
pub open spec fn whole_text(p: Seq<char>) -> Seq<char> {
    let t = if requires_dir(p) {
        p.drop_last()
    } else {
        p
    };
    if t.len() >= 2 && t[0] == '.' && is_sep(t[1]) {
        t.skip(2)
    } else {
        t
    }
}

/// The texts of the per-directory patterns: the components after the root.
pub open spec fn dir_texts(p: Seq<char>) -> Seq<Seq<char>> {
    split_terminator(p.skip(root_len(p)))
}

/// The first component from `k` on that is not a valid pattern.
pub open spec fn first_bad(comps: Seq<Seq<char>>, k: int) -> Option<int>
    decreases comps.len() - k,
{
    if k < 0 || k >= comps.len() {
        None
    } else if parse_pattern(comps[k], true) is Err {
        Some(k)
    } else {
        first_bad(comps, k + 1)
    }
}

/// The directory where the walk starts: the root, or the current
/// directory.
pub open spec fn scope_of(p: Seq<char>) -> Seq<char> {
    if root_len(p) > 0 {
        seq!['/']
    } else {
        seq!['.']
    }
}

/// What `glob_with` gives for a pattern and options.
pub open spec fn glob_post(p: Seq<char>, options: MatchOptions, r: Result<Entries, PatternError>) -> bool {
    let comps = dir_texts(p);
    match parse_pattern(whole_text(p), false) {
        Err(e) => r matches Err(err) && err.describes(e),
        Ok(whole) => match first_bad(comps, 0) {
            Some(k) => match parse_pattern(comps[k], true) {
                Err(e) => r matches Err(err) && err.describes(e),
                Ok(_) => false,
            },
            None => r matches Ok(ent) && {
                &&& ent.whole().compiled_from(whole_text(p), whole)
                &&& ent.dirs().len() == comps.len() + if root_len(p) == p.len() { 1int } else { 0 }
                &&& forall|k: int| #![trigger dir_texts(p)[k]] 0 <= k < dir_texts(p).len() ==> (parse_pattern(dir_texts(p)[k], true) matches Ok(st)
                    && ent.dirs()[k].compiled_from(dir_texts(p)[k], st))
                &&& root_len(p) == p.len() ==> {
                    &&& ent.dirs().last().toks().len() == 0
                    &&& ent.dirs().last().text().len() == 0
                    &&& !ent.dirs().last().recursive()
                }
                &&& ent.dir_only() == requires_dir(p)
                &&& ent.opts() == options
                &&& ent.start() == Some(scope_of(p))
                &&& ent.fresh()
            },
        },
    }
}

/// The walk for `pattern` under the default options; see `glob_with`.
pub fn glob(pattern: &str) -> (r: Result<Entries, PatternError>)
    ensures
        glob_post(pattern@, crate::matching::default_options(), r),
{
    glob_with(pattern, &MatchOptions::new())
}

fn pattern_at(v: &Vec<String>, i: usize) -> (s: &String)
    requires
        i < v@.len(),
    ensures
        s@ == v@[i as int]@,
{
    &v[i]
}

/// The walk of the file system for the paths that match `pattern` under
/// `options`, or the first error in the pattern. The pattern is compiled
/// whole (without a trailing separator, which asks for directories only,
/// and without a leading `./`) and component by component; the walk starts
/// at the root for an absolute pattern and at the current directory
/// otherwise.
pub fn glob_with(pattern: &str, options: &MatchOptions) -> (r: Result<Entries, PatternError>)
    ensures
        glob_post(pattern@, *options, r),
{
    let chars = str_chars(pattern);
    let cs = chars.as_slice();
    let n = cs.len();
    let ghost p = pattern@;
    let require_dir = n > 0 && elem_at(cs, n - 1) == '/';
    let mut end = n;
    if require_dir {
        end = n - 1;
    }
    let mut begin: usize = 0;
    if end >= 2 && elem_at(cs, 0) == '.' && elem_at(cs, 1) == '/' {
        begin = 2;
    }
    let txt = string_from_chars(&cs[begin..end]);
    proof {
        let t = if requires_dir(p) { p.drop_last() } else { p };
        assert(t =~= p.take(end as int));
        assert(txt@ =~= whole_text(p));
    }
    let compiled = match Pattern::new(txt.as_str()) {
        Ok(c) => c,
        Err(e) => {
            return Err(e);
        },
    };
    let root_len: usize = if n > 0 && elem_at(cs, 0) == '/' { 1 } else { 0 };
    let comps = split_components(&cs[root_len..n]);
    assert(cs@.subrange(root_len as int, n as int) =~= p.skip(root_len as int));
    let ghost texts = dir_texts(p);
    let mut dir_patterns: Vec<Pattern> = Vec::new();
    let mut k: usize = 0;
    while k < comps.len()
        invariant
            k <= comps@.len(),
            strings_view(comps@) == texts,
            texts == dir_texts(p),
            p == pattern@,
            parse_pattern(whole_text(p), false) is Ok,
            dir_patterns@.len() == k,
            first_bad(texts, 0) == first_bad(texts, k as int),
            forall|j: int| #![trigger texts[j]] 0 <= j < k ==> (parse_pattern(texts[j], true) matches Ok(st)
                && dir_patterns@[j].compiled_from(texts[j], st)),
        decreases comps@.len() - k,
    {
        let comp = pattern_at(&comps, k);
        assert(comp@ == texts[k as int]);
        match Pattern::new_options(comp.as_str(), true) {
            Ok(c) => {
                dir_patterns.push(c);
            },
            Err(e) => {
                assert(first_bad(texts, k as int) == Some(k as int));
                return Err(e);
            },
        }
        k += 1;
    }
    assert(first_bad(texts, k as int) is None);
    if root_len == n {
        dir_patterns.push(Pattern::empty());
    }
    let scope = if root_len > 0 {
        string_from_chars(&cs[0..1])
    } else {
        let mut s = String::new();
        crate::strings::push_char(&mut s, '.');
        s
    };
    proof {
        if root_len > 0 {
            assert(scope@ =~= seq!['/']);
        } else {
            assert(scope@ =~= seq!['.']);
        }
    }
    Ok(Entries::begin(compiled, dir_patterns, require_dir, *options, scope))
}

} // verus!

verus! {

/// `p` starts with `./`.
pub open spec fn dot_slash_prefixed(p: Seq<char>) -> bool {
    p.len() >= 2 && p[0] == '.' && is_sep(p[1])
}

/// A leading `./` does not change the whole pattern: for a nonempty `p`
/// that does not itself start with `./`, the walks for `./p` and for `p`
/// capture groups with the same compiled pattern, so an entry found for
/// `./p` carries the groups that `p` captures in its path.
pub proof fn law_dot_slash_same_whole_pattern(
    p: Seq<char>,
    o: MatchOptions,
    r1: Result<Entries, PatternError>,
    r2: Result<Entries, PatternError>,
)
    requires
        p.len() > 0,
        !dot_slash_prefixed(p),
        glob_post(seq!['.', '/'] + p, o, r1),
        glob_post(p, o, r2),
        r1 is Ok,
        r2 is Ok,
    ensures
        r1->Ok_0.whole().toks() == r2->Ok_0.whole().toks(),
        r1->Ok_0.whole().text() == r2->Ok_0.whole().text(),
        r1->Ok_0.whole().recursive() == r2->Ok_0.whole().recursive(),
{
    let q = seq!['.', '/'] + p;
    assert(q.last() == p.last());
    let t = if requires_dir(p) { p.drop_last() } else { p };
    let tq = if requires_dir(q) { q.drop_last() } else { q };
    assert(tq =~= seq!['.', '/'] + t);
    assert(tq.skip(2) =~= t);
    if t.len() >= 2 {
        assert(t[0] == p[0] && t[1] == p[1]);
    }
    assert(whole_text(q) == whole_text(p));
}

} // verus!
