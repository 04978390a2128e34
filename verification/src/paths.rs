use vstd::prelude::*;
use vstd::relations::{sorted_by, total_ordering};

use crate::options::{is_sep, elem_at};
use crate::strings::{str_chars, push_char};

verus! {

// ---------------------------------------------------------------------
// Order of names
// ---------------------------------------------------------------------

/// Lexicographic order of char sequences (which for UTF-8 text is the
/// order of its bytes).
pub open spec fn seq_less(a: Seq<char>, b: Seq<char>) -> bool
    decreases a.len(),
{
    if a.len() == 0 {
        b.len() > 0
    } else if b.len() == 0 {
        false
    } else if a[0] != b[0] {
        a[0] < b[0]
    } else {
        seq_less(a.drop_first(), b.drop_first())
    }
}

/// `a` comes no later than `b` in descending order.
pub open spec fn desc_order(a: Seq<char>, b: Seq<char>) -> bool {
    !seq_less(a, b)
}

pub proof fn lemma_seq_less_irreflexive(a: Seq<char>)
    ensures
        !seq_less(a, a),
    decreases a.len(),
{
    if a.len() > 0 {
        lemma_seq_less_irreflexive(a.drop_first());
    }
}

pub proof fn lemma_seq_less_asymmetric(a: Seq<char>, b: Seq<char>)
    ensures
        seq_less(a, b) ==> !seq_less(b, a),
    decreases a.len(),
{
    if a.len() > 0 && b.len() > 0 && a[0] == b[0] {
        lemma_seq_less_asymmetric(a.drop_first(), b.drop_first());
    }
}

pub proof fn lemma_seq_less_total(a: Seq<char>, b: Seq<char>)
    ensures
        a != b ==> seq_less(a, b) || seq_less(b, a),
    decreases a.len(),
{
    if a.len() > 0 && b.len() > 0 {
        if a[0] == b[0] {
            lemma_seq_less_total(a.drop_first(), b.drop_first());
            if a.drop_first() == b.drop_first() {
                assert(a.drop_first().len() == a.len() - 1);
                assert(b.drop_first().len() == b.len() - 1);
                assert(a.len() == b.len());
                assert forall|k: int| 0 <= k < a.len() implies a[k] == b[k] by {
                    if k > 0 {
                        assert(a[k] == a.drop_first()[k - 1]);
                        assert(b[k] == b.drop_first()[k - 1]);
                    }
                }
                assert(a =~= b);
            }
        }
    } else if a.len() == 0 && b.len() == 0 {
        assert(a =~= b);
    }
}

pub proof fn lemma_seq_less_transitive(a: Seq<char>, b: Seq<char>, c: Seq<char>)
    ensures
        seq_less(a, b) && seq_less(b, c) ==> seq_less(a, c),
    decreases a.len(),
{
    if a.len() > 0 && b.len() > 0 && c.len() > 0 {
        lemma_seq_less_transitive(a.drop_first(), b.drop_first(), c.drop_first());
    }
}

/// Descending name order is a total order.
pub proof fn lemma_desc_order_total()
    ensures
        total_ordering(desc_leq()),
{
    let r = desc_leq();
    assert forall|x: Seq<char>| #[trigger] r(x, x) by {
        lemma_seq_less_irreflexive(x);
    }
    assert forall|x: Seq<char>, y: Seq<char>| #[trigger] r(x, y) && #[trigger] r(y, x) implies x == y by {
        lemma_seq_less_total(x, y);
    }
    assert forall|x: Seq<char>, y: Seq<char>, z: Seq<char>| #[trigger] r(x, y) && #[trigger] r(y, z) implies r(x, z) by {
        lemma_seq_less_total(x, y);
        lemma_seq_less_total(y, z);
        lemma_seq_less_transitive(x, y, z);
        lemma_seq_less_transitive(z, y, x);
        lemma_seq_less_asymmetric(x, z);
        lemma_seq_less_transitive(x, z, y);
        lemma_seq_less_transitive(z, x, y);
        lemma_seq_less_transitive(y, x, z);
        lemma_seq_less_asymmetric(x, y);
        lemma_seq_less_asymmetric(y, z);
    }
    assert forall|x: Seq<char>, y: Seq<char>| #[trigger] r(x, y) || #[trigger] r(y, x) by {
        lemma_seq_less_asymmetric(x, y);
    }
}

fn char_vec_at(v: &Vec<char>, i: usize) -> (c: char)
    requires
        i < v@.len(),
    ensures
        c == v@[i as int],
{
    elem_at(v.as_slice(), i)
}

/// Whether `a` comes before `b` in lexicographic order.
pub fn chars_less(a: &Vec<char>, b: &Vec<char>) -> (r: bool)
    ensures
        r == seq_less(a@, b@),
{
    let mut i: usize = 0;
    assert(a@.skip(0) =~= a@);
    assert(b@.skip(0) =~= b@);
    assert(a@.subrange(0, 0) =~= b@.subrange(0, 0));
    while i < a.len() && i < b.len()
        invariant
            i <= a@.len(),
            i <= b@.len(),
            a@.subrange(0, i as int) == b@.subrange(0, i as int),
            seq_less(a@, b@) == seq_less(a@.skip(i as int), b@.skip(i as int)),
        decreases a@.len() - i,
    {
        let x = char_vec_at(a, i);
        let y = char_vec_at(b, i);
        if x != y {
            assert(a@.skip(i as int)[0] == x && b@.skip(i as int)[0] == y);
            return x < y;
        }
        assert(a@.skip(i as int).drop_first() =~= a@.skip(i + 1));
        assert(b@.skip(i as int).drop_first() =~= b@.skip(i + 1));
        assert(a@.subrange(0, i + 1) =~= b@.subrange(0, i + 1)) by {
            assert(a@.subrange(0, i + 1) =~= a@.subrange(0, i as int).push(x));
            assert(b@.subrange(0, i + 1) =~= b@.subrange(0, i as int).push(y));
        }
        i += 1;
    }
    i < b.len()
}

pub open spec fn strings_view(v: Seq<String>) -> Seq<Seq<char>> {
    v.map_values(|s: String| s@)
}

fn string_at(v: &Vec<String>, i: usize) -> (s: &String)
    requires
        i < v@.len(),
    ensures
        s@ == v@[i as int]@,
{
    &v[i]
}

/// The order in which names are listed: descending.
pub open spec fn desc_leq() -> spec_fn(Seq<char>, Seq<char>) -> bool {
    |a: Seq<char>, b: Seq<char>| desc_order(a, b)
}

/// The names in descending order.
pub fn sort_names_desc(names: Vec<String>) -> (r: Vec<String>)
    ensures
        strings_view(r@) == strings_view(names@).sort_by(desc_leq()),
{
    let ghost leq = desc_leq();
    let mut sorted: Vec<String> = Vec::new();
    let mut keys: Vec<Vec<char>> = Vec::new();
    let mut i: usize = 0;
    let n = names.len();
    assert(strings_view(sorted@) =~= Seq::<Seq<char>>::empty());
    assert(strings_view(names@.take(0)) =~= Seq::<Seq<char>>::empty());
    while i < n
        invariant
            n == names@.len(),
            i <= n,
            sorted@.len() == keys@.len(),
            forall|k: int| 0 <= k < keys@.len() ==> #[trigger] keys@[k]@ == sorted@[k]@,
            leq == desc_leq(),
            sorted_by(strings_view(sorted@), leq),
            strings_view(sorted@).to_multiset() == strings_view(names@.take(i as int)).to_multiset(),
        decreases n - i,
    {
        let name = string_at(&names, i);
        let key = str_chars(name.as_str());
        let mut pos: usize = 0;
        while pos < keys.len() && !chars_less(&keys[pos], &key)
            invariant
                pos <= keys@.len(),
                sorted@.len() == keys@.len(),
                forall|k: int| 0 <= k < keys@.len() ==> #[trigger] keys@[k]@ == sorted@[k]@,
                forall|k: int| 0 <= k < pos ==> !seq_less(#[trigger] keys@[k]@, key@),
            decreases keys@.len() - pos,
        {
            pos += 1;
        }
        let ghost old_view = strings_view(sorted@);
        let ghost old_sorted = sorted@;
        let ghost old_keys = keys@;
        let item = name.clone();
        sorted.insert(pos, item);
        keys.insert(pos, key);
        proof {
            let nv = strings_view(sorted@);
            assert(nv =~= old_view.insert(pos as int, name@));
            assert forall|k: int| 0 <= k < keys@.len() implies #[trigger] keys@[k]@ == sorted@[k]@ by {
                if k < pos {
                    assert(keys@[k] == old_keys[k] && sorted@[k] == old_sorted[k]);
                } else if k > pos {
                    assert(keys@[k] == old_keys[k - 1] && sorted@[k] == old_sorted[k - 1]);
                }
            }
            assert(key@ == name@);
            assert forall|a: int, b: int| 0 <= a < b < nv.len() implies #[trigger] leq(nv[a], nv[b]) by {
                assert(a < pos ==> nv[a] == old_view[a]);
                assert(a == pos ==> nv[a] == name@);
                assert(a > pos ==> nv[a] == old_view[a - 1]);
                assert(b < pos ==> nv[b] == old_view[b]);
                assert(b == pos ==> nv[b] == name@);
                assert(b > pos ==> nv[b] == old_view[b - 1]);
                if b < pos {
                    assert(leq(old_view[a], old_view[b]));
                    assert(leq(nv[a], nv[b]));
                } else if b == pos {
                    assert(old_view[a] == old_keys[a]@);
                    assert(!seq_less(old_keys[a]@, key@));
                    assert(leq(nv[a], nv[b]));
                } else if a == pos {
                    if pos < old_view.len() {
                        assert(old_view[pos as int] == old_keys[pos as int]@);
                        assert(seq_less(old_view[pos as int], name@));
                        if b - 1 > pos {
                            assert(leq(old_view[pos as int], old_view[b - 1]));
                        }
                        lemma_seq_less_transitive(old_view[pos as int], name@, old_view[b - 1]);
                        lemma_seq_less_irreflexive(old_view[pos as int]);
                    }
                    assert(leq(nv[a], nv[b]));
                } else if a > pos {
                    assert(leq(old_view[a - 1], old_view[b - 1]));
                    assert(leq(nv[a], nv[b]));
                } else {
                    assert(leq(old_view[a], old_view[b - 1]));
                    assert(leq(nv[a], nv[b]));
                }
            }
            vstd::seq_lib::to_multiset_insert(old_view, pos as int, name@);
            assert(names@.take(i + 1) =~= names@.take(i as int).push(names@[i as int]));
            assert(strings_view(names@.take(i + 1)) =~= strings_view(names@.take(i as int)).push(name@));
            vstd::seq_lib::to_multiset_build(strings_view(names@.take(i as int)), name@);
        }
        i += 1;
    }
    proof {
        assert(names@.take(n as int) =~= names@);
        lemma_desc_order_total();
        strings_view(names@).lemma_sort_by_ensures(leq);
        vstd::seq_lib::lemma_sorted_unique(strings_view(sorted@), strings_view(names@).sort_by(leq), leq);
    }
    sorted
}


// ---------------------------------------------------------------------
// Paths as text
// ---------------------------------------------------------------------

/// `name` appended to `base` as a path component: a separator is put in
/// between unless `base` is empty or already ends with one; an absolute
/// `name` replaces `base`.
pub open spec fn join(base: Seq<char>, name: Seq<char>) -> Seq<char> {
    if name.len() > 0 && is_sep(name[0]) {
        name
    } else if base.len() > 0 && !is_sep(base.last()) {
        base + seq!['/'] + name
    } else {
        base + name
    }
}

/// Appends the chars of `t` to `s`.
fn push_chars(s: &mut String, t: &[char])
    ensures
        final(s)@ == old(s)@ + t@,
{
    let mut i: usize = 0;
    while i < t.len()
        invariant
            i <= t@.len(),
            s@ == old(s)@ + t@.take(i as int),
        decreases t@.len() - i,
    {
        push_char(s, elem_at(t, i));
        i += 1;
        assert(s@ =~= old(s)@ + t@.take(i as int));
    }
    assert(t@.take(i as int) =~= t@);
}

/// The path `name` below `base`.
pub fn join_path(base: &str, name: &str) -> (r: String)
    ensures
        r@ == join(base@, name@),
{
    let b = str_chars(base);
    let n = str_chars(name);
    let mut r = String::new();
    if n.len() > 0 && elem_at(n.as_slice(), 0) == '/' {
        push_chars(&mut r, n.as_slice());
        assert(r@ =~= name@);
        return r;
    }
    push_chars(&mut r, b.as_slice());
    if b.len() > 0 && elem_at(b.as_slice(), b.len() - 1) != '/' {
        push_char(&mut r, '/');
    }
    push_chars(&mut r, n.as_slice());
    assert(r@ =~= join(base@, name@));
    r
}

/// Whether the path is the current directory `.`: a leading `.` component
/// followed only by more `.` components and separators.
pub open spec fn is_curdir(p: Seq<char>) -> bool {
    &&& p.len() > 0
    &&& p[0] == '.'
    &&& forall|k: int| 0 <= k < p.len() ==> (#[trigger] p[k] == '.' || is_sep(p[k]))
    &&& forall|k: int| 0 <= k < p.len() - 1 && #[trigger] p[k] == '.' ==> is_sep(p[k + 1])
}

/// Executable form of `is_curdir`.
pub fn path_is_curdir(path: &str) -> (b: bool)
    ensures
        b == is_curdir(path@),
{
    let p = str_chars(path);
    let ps = p.as_slice();
    if ps.len() == 0 || elem_at(ps, 0) != '.' {
        return false;
    }
    let mut k: usize = 0;
    while k < ps.len()
        invariant
            k <= ps@.len(),
            ps@ == path@,
            forall|j: int| 0 <= j < k ==> (#[trigger] ps@[j] == '.' || is_sep(ps@[j])),
            forall|j: int| 0 <= j < k && j < ps@.len() - 1 && #[trigger] ps@[j] == '.' ==> is_sep(ps@[j + 1]),
        decreases ps@.len() - k,
    {
        let c = elem_at(ps, k);
        if c != '.' && c != '/' {
            return false;
        }
        if c == '.' && k + 1 < ps.len() && elem_at(ps, k + 1) != '/' {
            return false;
        }
        k += 1;
    }
    true
}

/// The path with trailing separators and trailing `.` components (other
/// than a leading one) removed.
pub open spec fn trim_tail(p: Seq<char>) -> Seq<char>
    decreases p.len(),
{
    if p.len() > 0 && is_sep(p.last()) {
        trim_tail(p.drop_last())
    } else if p.len() >= 2 && p.last() == '.' && is_sep(p[p.len() - 2]) {
        trim_tail(p.take(p.len() - 2))
    } else {
        p
    }
}

/// Where the last component of `p` starts: after its last separator.
pub open spec fn last_start(p: Seq<char>) -> int
    decreases p.len(),
{
    if p.len() == 0 {
        0
    } else if is_sep(p.last()) {
        p.len() as int
    } else {
        last_start(p.drop_last())
    }
}

/// The final component of a path, unless the path ends in `..`, is the
/// current directory, or is a root.
pub open spec fn file_name(p: Seq<char>) -> Option<Seq<char>> {
    let t = trim_tail(p);
    let name = t.skip(last_start(t));
    if name.len() == 0 || name == seq!['.'] || name == seq!['.', '.'] {
        None
    } else {
        Some(name)
    }
}

proof fn lemma_last_start_bound(p: Seq<char>)
    ensures
        0 <= last_start(p) <= p.len(),
        forall|k: int| last_start(p) <= k < p.len() ==> !is_sep(#[trigger] p[k]),
        last_start(p) > 0 ==> is_sep(p[last_start(p) - 1]),
    decreases p.len(),
{
    if p.len() > 0 && !is_sep(p.last()) {
        lemma_last_start_bound(p.drop_last());
        assert forall|k: int| last_start(p) <= k < p.len() implies !is_sep(#[trigger] p[k]) by {
            if k < p.len() - 1 {
                assert(p[k] == p.drop_last()[k]);
            }
        }
        if last_start(p) > 0 {
            assert(p[last_start(p) - 1] == p.drop_last()[last_start(p) - 1]);
        }
    }
}

proof fn lemma_trim_tail_prefix(p: Seq<char>)
    ensures
        trim_tail(p).len() <= p.len(),
        trim_tail(p) == p.take(trim_tail(p).len() as int),
    decreases p.len(),
{
    if p.len() > 0 && is_sep(p.last()) {
        lemma_trim_tail_prefix(p.drop_last());
        assert(p.drop_last().take(trim_tail(p).len() as int) =~= p.take(trim_tail(p).len() as int));
    } else if p.len() >= 2 && p.last() == '.' && is_sep(p[p.len() - 2]) {
        lemma_trim_tail_prefix(p.take(p.len() - 2));
        assert(p.take(p.len() - 2).take(trim_tail(p).len() as int) =~= p.take(trim_tail(p).len() as int));
    } else {
        assert(p.take(p.len() as int) =~= p);
    }
}

/// The final component of a path, as `Path::file_name` gives it.
pub fn path_file_name(path: &str) -> (r: Option<String>)
    ensures
        match (r, file_name(path@)) {
            (Some(s), Some(t)) => s@ == t,
            (None, None) => true,
            _ => false,
        },
{
    let p = str_chars(path);
    let ps = p.as_slice();
    let mut end: usize = ps.len();
    proof {
        assert(ps@.take(end as int) =~= ps@);
    }
    loop
        invariant
            end <= ps@.len(),
            ps@ == path@,
            trim_tail(path@) == trim_tail(ps@.take(end as int)),
        ensures
            !(end > 0 && is_sep(ps@[end - 1])),
            !(end >= 2 && ps@[end - 1] == '.' && is_sep(ps@[end - 2])),
        decreases end,
    {
        let ghost t = ps@.take(end as int);
        if end > 0 && elem_at(ps, end - 1) == '/' {
            assert(t.drop_last() =~= ps@.take(end - 1));
            end -= 1;
        } else if end >= 2 && elem_at(ps, end - 1) == '.' && elem_at(ps, end - 2) == '/' {
            assert(t.take(t.len() - 2) =~= ps@.take(end - 2));
            end -= 2;
        } else {
            break;
        }
    }
    let ghost t = ps@.take(end as int);
    assert(trim_tail(t) == t) by {
        if end > 0 {
            assert(t.last() == ps@[end - 1]);
        }
        if end >= 2 {
            assert(t[t.len() - 2] == ps@[end - 2]);
        }
    }
    assert(t.take(end as int) =~= t);
    let mut start = end;
    while start > 0 && elem_at(ps, start - 1) != '/'
        invariant
            start <= end <= ps@.len(),
            t == ps@.take(end as int),
            last_start(t) == last_start(t.take(start as int)),
            start < end ==> last_start(t.take(start as int)) == last_start(t.take(start as int)),
        decreases start,
    {
        assert(t.take(start as int).drop_last() =~= t.take(start - 1));
        start -= 1;
    }
    proof {
        if start > 0 {
            assert(last_start(t.take(start as int)) == start);
        } else {
            assert(last_start(t.take(0)) == 0);
        }
    }
    let name = &ps[start..end];
    assert(name@ =~= t.skip(last_start(t)));
    let len = end - start;
    if len == 0 || (len == 1 && elem_at(name, 0) == '.') || (len == 2 && elem_at(name, 0) == '.' && elem_at(name, 1) == '.') {
        proof {
            if len == 1 {
                assert(name@ =~= seq!['.']);
            }
            if len == 2 {
                assert(name@ =~= seq!['.', '.']);
            }
        }
        None
    } else {
        proof {
            if len == 1 {
                assert(name@ != seq!['.']) by {
                    assert(name@[0] != '.');
                }
            }
            if len == 2 {
                assert(name@ != seq!['.', '.']) by {
                    assert(name@[0] != '.' || name@[1] != '.');
                }
            }
        }
        Some(crate::strings::string_from_chars(name))
    }
}

/// The pieces of `s` between its separators, in order (one empty piece for
/// the empty string).
pub open spec fn pieces(s: Seq<char>) -> Seq<Seq<char>>
    decreases s.len(),
{
    if s.len() == 0 {
        seq![Seq::empty()]
    } else {
        let r = pieces(s.drop_last());
        if is_sep(s.last()) {
            r.push(Seq::empty())
        } else {
            r.update(r.len() - 1, r.last().push(s.last()))
        }
    }
}

/// The components of `s` split at separators, without the empty piece
/// that a trailing separator (or the empty string) leaves at the end.
pub open spec fn split_terminator(s: Seq<char>) -> Seq<Seq<char>> {
    let r = pieces(s);
    if r.last().len() == 0 {
        r.drop_last()
    } else {
        r
    }
}

proof fn lemma_pieces_len(s: Seq<char>)
    ensures
        pieces(s).len() >= 1,
    decreases s.len(),
{
    if s.len() > 0 {
        lemma_pieces_len(s.drop_last());
    }
}

/// The components of a path split at its separators, as
/// `str::split_terminator` gives them.
pub fn split_components(s: &[char]) -> (r: Vec<String>)
    ensures
        strings_view(r@) == split_terminator(s@),
{
    let mut done: Vec<String> = Vec::new();
    let mut cur = String::new();
    let mut i: usize = 0;
    proof {
        assert(s@.take(0) =~= Seq::<char>::empty());
        assert(strings_view(done@).push(cur@) =~= pieces(s@.take(0)));
    }
    while i < s.len()
        invariant
            i <= s@.len(),
            strings_view(done@).push(cur@) == pieces(s@.take(i as int)),
        decreases s@.len() - i,
    {
        let c = elem_at(s, i);
        let ghost prev = s@.take(i as int);
        proof {
            assert(s@.take(i + 1).drop_last() =~= prev);
            lemma_pieces_len(prev);
        }
        if c == '/' {
            let finished = cur;
            done.push(finished);
            cur = String::new();
            proof {
                assert(strings_view(done@) =~= pieces(prev));
                assert(strings_view(done@).push(cur@) =~= pieces(s@.take(i + 1)));
            }
        } else {
            push_char(&mut cur, c);
            proof {
                assert(strings_view(done@).push(cur@) =~= pieces(s@.take(i + 1)));
            }
        }
        i += 1;
    }
    proof {
        assert(s@.take(i as int) =~= s@);
    }
    if cur.as_str().is_empty() {
        proof {
            assert(strings_view(done@) =~= pieces(s@).drop_last());
        }
    } else {
        done.push(cur);
        proof {
            assert(strings_view(done@) =~= pieces(s@));
        }
    }
    done
}

} // verus!
