use vstd::prelude::*;

use crate::options::{is_sep, is_separator, elem_at};
use crate::specifier::{CharSpecifier, parse_char_specifiers, specifiers_from};
use crate::strings::{str_chars, string_from_chars};

verus! {

/// One compiled element of a pattern.
#[derive(Clone, Debug, PartialEq, Eq, Hash, PartialOrd, Ord)]
pub enum PatternToken {
    /// A literal char.
    Char(char),
    /// `?`: any single char.
    AnyChar,
    /// `*`: any sequence of chars.
    AnySequence,
    /// `**`: the current directory and any subdirectories.
    AnyRecursiveSequence,
    /// `[...]`: one char that one of the specifiers matches.
    AnyWithin(Vec<CharSpecifier>),
    /// `[!...]`: one char that none of the specifiers matches.
    AnyExcept(Vec<CharSpecifier>),
    /// `(`: the start of capture group number `.0`; `.1` is set where the
    /// group directly encloses a `**`.
    StartCapture(usize, bool),
    /// `)`: the end of capture group number `.0`; `.1` as for the start.
    EndCapture(usize, bool),
}

/// The mathematical form of a `PatternToken`.
pub enum Tok {
    Char(char),
    AnyChar,
    AnySeq,
    AnyRec,
    Within(Seq<CharSpecifier>),
    Except(Seq<CharSpecifier>),
    Start(usize, bool),
    End(usize, bool),
}

impl View for PatternToken {
    type V = Tok;

    open spec fn view(&self) -> Tok {
        match self {
            PatternToken::Char(c) => Tok::Char(*c),
            PatternToken::AnyChar => Tok::AnyChar,
            PatternToken::AnySequence => Tok::AnySeq,
            PatternToken::AnyRecursiveSequence => Tok::AnyRec,
            PatternToken::AnyWithin(v) => Tok::Within(v@),
            PatternToken::AnyExcept(v) => Tok::Except(v@),
            PatternToken::StartCapture(n, b) => Tok::Start(*n, *b),
            PatternToken::EndCapture(n, b) => Tok::End(*n, *b),
        }
    }
}

pub open spec fn is_capture(t: Tok) -> bool {
    t is Start || t is End
}

pub open spec fn is_star(t: Tok) -> bool {
    t is AnySeq || t is AnyRec
}

/// The last token of `ts` that is not a group boundary.
pub open spec fn last_non_capture(ts: Seq<Tok>) -> Option<Tok>
    decreases ts.len(),
{
    if ts.len() == 0 {
        None
    } else if is_capture(ts.last()) {
        last_non_capture(ts.drop_last())
    } else {
        Some(ts.last())
    }
}

/// What may stand before a `**`: nothing, a separator, or another `**`.
pub open spec fn may_precede_rec(t: Option<Tok>) -> bool {
    match t {
        None => true,
        Some(Tok::Char(c)) => is_sep(c),
        Some(Tok::AnyRec) => true,
        _ => false,
    }
}

/// Every `**` starts a path component: group boundaries aside, it is the
/// first token or follows a separator or another `**`.
pub open spec fn rec_placed(ts: Seq<Tok>) -> bool {
    forall|t: int| 0 <= t < ts.len() && #[trigger] ts[t] is AnyRec
        ==> may_precede_rec(last_non_capture(ts.take(t)))
}

/// The numbers of the groups that are open after `ts`, innermost last, or
/// `None` where a group end does not close the innermost open group.
pub open spec fn open_groups(ts: Seq<Tok>) -> Option<Seq<usize>>
    decreases ts.len(),
{
    if ts.len() == 0 {
        Some(Seq::empty())
    } else {
        match open_groups(ts.drop_last()) {
            None => None,
            Some(stack) => match ts.last() {
                Tok::Start(n, _) => Some(stack.push(n)),
                Tok::End(n, _) => if stack.len() > 0 && stack.last() == n {
                    Some(stack.drop_last())
                } else {
                    None
                },
                _ => Some(stack),
            },
        }
    }
}

/// Groups are numbered in the order in which they start.
pub open spec fn starts_increasing(ts: Seq<Tok>) -> bool {
    forall|a: int, b: int|
        0 <= a < b < ts.len() && #[trigger] ts[a] is Start && #[trigger] ts[b] is Start
            ==> ts[a]->Start_0 < ts[b]->Start_0
}

/// Every group number that starts in `ts` is below `k`.
pub open spec fn starts_below(ts: Seq<Tok>, k: usize) -> bool {
    forall|a: int| 0 <= a < ts.len() && #[trigger] ts[a] is Start ==> ts[a]->Start_0 < k
}

/// Whether a group boundary is marked as enclosing a `**`.
pub open spec fn flagged(t: Tok) -> bool {
    match t {
        Tok::Start(_, f) => f,
        Tok::End(_, f) => f,
        _ => false,
    }
}

/// No `**`, and no group boundary marked as enclosing one.
pub open spec fn plain(ts: Seq<Tok>) -> bool {
    forall|t: int| 0 <= t < ts.len() ==> !(#[trigger] ts[t] is AnyRec) && !flagged(ts[t])
}

/// The shape that every compiled pattern has: groups nest and close, are
/// numbered in order, and `**` stands only at the start of a component.
pub open spec fn wf_tokens(ts: Seq<Tok>) -> bool {
    &&& rec_placed(ts)
    &&& open_groups(ts) == Some(Seq::<usize>::empty())
    &&& starts_increasing(ts)
}

pub open spec fn toks_view(v: Seq<PatternToken>) -> Seq<Tok> {
    v.map_values(|t: PatternToken| t@)
}

/// What went wrong in a pattern.
pub enum ErrorKind {
    /// More than two `*` in a row.
    Wildcards,
    /// A `**` that is not a whole path component.
    RecursiveWildcards,
    /// A `[` without a closing `]`.
    InvalidRange,
    /// A `)` without an open group.
    UnmatchedClose,
    /// A `(` that is never closed.
    UnmatchedOpen,
}

/// The message that a `PatternError` of each kind carries.
pub open spec fn error_message(k: ErrorKind) -> Seq<char> {
    match k {
        ErrorKind::Wildcards => "wildcards are either regular `*` or recursive `**`"@,
        ErrorKind::RecursiveWildcards => "recursive wildcards must form a single path component"@,
        ErrorKind::InvalidRange => "invalid range pattern"@,
        ErrorKind::UnmatchedClose => "Unmatched closing paren"@,
        ErrorKind::UnmatchedOpen => "Unmatched opening paren"@,
    }
}

/// A pattern syntax error found at a char position.
pub struct SpecError {
    pub pos: int,
    pub kind: ErrorKind,
}

/// A pattern parsing error.
#[derive(Debug)]
pub struct PatternError {
    /// The approximate character index of where the error occurred.
    pub pos: usize,
    /// A message describing the error.
    pub msg: &'static str,
}

impl PatternError {
    pub open spec fn describes(&self, e: SpecError) -> bool {
        self.pos as int == e.pos && self.msg@ == error_message(e.kind)
    }
}

/// The state of the parser between two chars.
pub struct ParseState {
    pub tokens: Seq<Tok>,
    pub is_recursive: bool,
    pub last_capture: usize,
    /// Open groups: their number and the position of their `(`.
    pub stack: Seq<(usize, usize)>,
}

pub open spec fn initial_state() -> ParseState {
    ParseState { tokens: Seq::empty(), is_recursive: false, last_capture: 0, stack: Seq::empty() }
}

impl ParseState {
    pub open spec fn push(self, t: Tok) -> ParseState {
        ParseState { tokens: self.tokens.push(t), ..self }
    }

    /// A `(` at position `pos` opens a group.
    pub open spec fn open_group(self, pos: int, flag: bool) -> ParseState {
        ParseState {
            tokens: self.tokens.push(Tok::Start(self.last_capture, flag)),
            is_recursive: self.is_recursive,
            last_capture: (self.last_capture + 1) as usize,
            stack: self.stack.push((self.last_capture, pos as usize)),
        }
    }

    /// A `)` closes the innermost open group.
    pub open spec fn close_group(self, flag: bool) -> ParseState
        recommends
            self.stack.len() > 0,
    {
        ParseState {
            tokens: self.tokens.push(Tok::End(self.stack.last().0, flag)),
            stack: self.stack.drop_last(),
            ..self
        }
    }
}

/// The number of consecutive `*` that start at `i`.
pub open spec fn star_run(p: Seq<char>, i: int) -> nat
    decreases p.len() - i,
{
    if 0 <= i < p.len() && p[i] == '*' {
        1 + star_run(p, i + 1)
    } else {
        0
    }
}

/// The first position at or after `i` that holds a `]`.
pub open spec fn find_close(p: Seq<char>, i: int) -> Option<int>
    decreases p.len() - i,
{
    if i < 0 || i >= p.len() {
        None
    } else if p[i] == ']' {
        Some(i)
    } else {
        find_close(p, i + 1)
    }
}

pub open spec fn is_paren(c: char) -> bool {
    c == '(' || c == ')'
}

pub proof fn lemma_star_run_bound(p: Seq<char>, i: int)
    ensures
        0 <= i ==> i + star_run(p, i) <= p.len() || star_run(p, i) == 0,
        forall|k: int| 0 <= k < star_run(p, i) ==> #[trigger] p[i + k] == '*',
        0 <= i && i + star_run(p, i) < p.len() ==> p[i + star_run(p, i)] != '*',
    decreases p.len() - i,
{
    if 0 <= i < p.len() && p[i] == '*' {
        lemma_star_run_bound(p, i + 1);
        assert forall|k: int| 0 <= k < star_run(p, i) implies #[trigger] p[i + k] == '*' by {
            if k > 0 {
                assert(p[(i + 1) + (k - 1)] == '*');
            }
        }
    }
}

pub proof fn lemma_find_close_bound(p: Seq<char>, i: int)
    ensures
        find_close(p, i) matches Some(q) ==> i <= q < p.len() && p[q] == ']' && 0 <= i,
        forall|k: int| 0 <= i <= k < p.len() && (find_close(p, i) matches Some(q) ==> k < q)
            ==> #[trigger] p[k] != ']',
    decreases p.len() - i,
{
    if 0 <= i < p.len() && p[i] != ']' {
        lemma_find_close_bound(p, i + 1);
    }
}

/// Whether `p[..n]`, with parentheses left out, is empty or ends with a
/// separator.
pub open spec fn ends_with_sep(p: Seq<char>, n: int) -> bool
    decreases n,
{
    if n <= 0 {
        true
    } else if is_paren(p[n - 1]) {
        ends_with_sep(p, n - 1)
    } else {
        is_sep(p[n - 1])
    }
}

/// The parser from position `i` on. In `after_rec` mode a `**` has just been
/// read: parentheses may follow, then a separator that is consumed, or the
/// end of the pattern.
pub open spec fn parse_from(p: Seq<char>, i: int, skip: bool, st: ParseState, after_rec: bool)
    -> Result<ParseState, SpecError>
    decreases p.len() - i,
{
    if i < 0 || i >= p.len() {
        Ok(st)
    } else if after_rec {
        let c = p[i];
        if is_paren(c) {
            if skip {
                parse_from(p, i + 1, skip, st, true)
            } else if c == '(' {
                parse_from(p, i + 1, skip, st.open_group(i, true), true)
            } else if st.stack.len() == 0 {
                Err(SpecError { pos: i, kind: ErrorKind::UnmatchedClose })
            } else {
                parse_from(p, i + 1, skip, st.close_group(true), true)
            }
        } else if is_sep(c) {
            parse_from(p, i + 1, skip, st, false)
        } else {
            Err(SpecError { pos: i, kind: ErrorKind::RecursiveWildcards })
        }
    } else {
        let c = p[i];
        if c == '?' {
            parse_from(p, i + 1, skip, st.push(Tok::AnyChar), false)
        } else if c == '*' {
            let count = star_run(p, i);
            if count > 2 {
                Err(SpecError { pos: i + 2, kind: ErrorKind::Wildcards })
            } else if count == 2 {
                let st1 = if st.tokens.len() > 1 && st.tokens.last() == Tok::AnyRec {
                    st
                } else {
                    ParseState { is_recursive: true, ..st.push(Tok::AnyRec) }
                };
                if ends_with_sep(p, i) {
                    proof {
                        lemma_star_run_bound(p, i);
                    }
                    parse_from(p, i + 2, skip, st1, true)
                } else {
                    Err(SpecError { pos: i - 1, kind: ErrorKind::RecursiveWildcards })
                }
            } else {
                parse_from(p, i + 1, skip, st.push(Tok::AnySeq), false)
            }
        } else if c == '[' {
            if i + 4 <= p.len() && p[i + 1] == '!' {
                match find_close(p, i + 3) {
                    Some(q) => {
                        proof {
                            lemma_find_close_bound(p, i + 3);
                        }
                        parse_from(
                        p,
                        q + 1,
                        skip,
                        st.push(Tok::Except(specifiers_from(p.subrange(i + 2, q), 0))),
                        false,
                    )
                    },
                    None => Err(SpecError { pos: i, kind: ErrorKind::InvalidRange }),
                }
            } else if i + 3 <= p.len() && p[i + 1] != '!' {
                match find_close(p, i + 2) {
                    Some(q) => {
                        proof {
                            lemma_find_close_bound(p, i + 2);
                        }
                        parse_from(
                        p,
                        q + 1,
                        skip,
                        st.push(Tok::Within(specifiers_from(p.subrange(i + 1, q), 0))),
                        false,
                    )
                    },
                    None => Err(SpecError { pos: i, kind: ErrorKind::InvalidRange }),
                }
            } else {
                Err(SpecError { pos: i, kind: ErrorKind::InvalidRange })
            }
        } else if c == '(' {
            if skip {
                parse_from(p, i + 1, skip, st, false)
            } else {
                parse_from(p, i + 1, skip, st.open_group(i, false), false)
            }
        } else if c == ')' {
            if skip {
                parse_from(p, i + 1, skip, st, false)
            } else if st.stack.len() == 0 {
                Err(SpecError { pos: i, kind: ErrorKind::UnmatchedClose })
            } else {
                parse_from(p, i + 1, skip, st.close_group(false), false)
            }
        } else {
            parse_from(p, i + 1, skip, st.push(Tok::Char(c)), false)
        }
    }
}

/// The compiled form of a pattern, or the first syntax error in it. With
/// `skip` the parentheses are left out and no groups are made.
pub open spec fn parse_pattern(p: Seq<char>, skip: bool) -> Result<ParseState, SpecError> {
    match parse_from(p, 0, skip, initial_state(), false) {
        Err(e) => Err(e),
        Ok(st) => if st.stack.len() > 0 {
            Err(SpecError { pos: st.stack[0].1 as int, kind: ErrorKind::UnmatchedOpen })
        } else {
            Ok(st)
        },
    }
}


/// A compiled Unix shell style pattern.
///
/// - `?` matches any single character.
/// - `*` matches any (possibly empty) sequence of characters.
/// - `**` matches the current directory and arbitrary subdirectories. It must
///   form a single path component, so both `**a` and `b**` are invalid, as is
///   a sequence of more than two `*`.
/// - `[...]` matches any character inside the brackets; `a-z` inside them is
///   a range. An unclosed bracket is invalid.
/// - `[!...]` matches any character that is not inside the brackets.
/// - `(` and `)` delimit capture groups.
#[derive(Debug, PartialEq, Eq, Hash, PartialOrd, Ord)]
pub struct Pattern {
    original: String,
    tokens: Vec<PatternToken>,
    is_recursive: bool,
}

impl Pattern {
    /// The tokens of the pattern.
    pub closed spec fn toks(&self) -> Seq<Tok> {
        toks_view(self.tokens@)
    }

    /// The text that the pattern was compiled from.
    pub closed spec fn text(&self) -> Seq<char> {
        self.original@
    }

    /// Whether the pattern holds a `**`.
    pub closed spec fn recursive(&self) -> bool {
        self.is_recursive
    }

    /// Whether this is the pattern that `parse_pattern` gives for `text`.
    pub open spec fn compiled_from(&self, text: Seq<char>, st: ParseState) -> bool {
        &&& self.toks() == st.tokens
        &&& self.recursive() == st.is_recursive
        &&& self.text() == text
    }
}

impl Pattern {
    #[verifier::type_invariant]
    spec fn well_formed(self) -> bool {
        wf_tokens(toks_view(self.tokens@))
    }

    /// The number of tokens; every pattern is well formed.
    pub(crate) fn token_count(&self) -> (n: usize)
        ensures
            n == self.toks().len(),
            wf_tokens(self.toks()),
    {
        proof {
            use_type_invariant(self);
        }
        self.tokens.len()
    }

    /// The pattern that matches only the empty string, compiled from ``.
    pub(crate) fn empty() -> (p: Pattern)
        ensures
            p.toks() == Seq::<Tok>::empty(),
            p.text() == Seq::<char>::empty(),
            !p.recursive(),
    {
        let p = Pattern { original: String::new(), tokens: Vec::new(), is_recursive: false };
        assert(toks_view(p.tokens@) =~= Seq::<Tok>::empty());
        p
    }

    /// Every pattern is well formed.
    pub(crate) fn well_formed_tokens(&self)
        ensures
            wf_tokens(self.toks()),
    {
        proof {
            use_type_invariant(self);
        }
    }

    /// The token at index `i`.
    pub(crate) fn token_at(&self, i: usize) -> (t: &PatternToken)
        requires
            i < self.toks().len(),
        ensures
            t@ == self.toks()[i as int],
    {
        &self.tokens[i]
    }
}

fn token_is_recursive(t: &PatternToken) -> (b: bool)
    ensures
        b == (t@ == Tok::AnyRec),
{
    match t {
        PatternToken::AnyRecursiveSequence => true,
        _ => false,
    }
}

/// Whether `s[..n]`, with parentheses left out, is empty or ends with a
/// separator.
fn ends_with_sep_exec(s: &[char], n: usize) -> (b: bool)
    requires
        n <= s@.len(),
    ensures
        b == ends_with_sep(s@, n as int),
{
    let mut k = n;
    while k > 0
        invariant
            k <= n,
            n <= s@.len(),
            ends_with_sep(s@, n as int) == ends_with_sep(s@, k as int),
        decreases k,
    {
        let c = elem_at(s, k - 1);
        if c == '(' || c == ')' {
            k -= 1;
        } else {
            return is_separator(c);
        }
    }
    true
}

/// The first position at or after `from` that holds a `]`.
fn find_close_exec(s: &[char], from: usize) -> (r: Option<usize>)
    ensures
        r matches Some(q) ==> find_close(s@, from as int) == Some(q as int),
        r is None ==> find_close(s@, from as int) is None,
{
    let mut k = from;
    while k < s.len()
        invariant
            from <= k,
            find_close(s@, from as int) == find_close(s@, k as int),
        decreases s@.len() - k,
    {
        if elem_at(s, k) == ']' {
            return Some(k);
        }
        k += 1;
    }
    None
}

fn clone_specifiers(v: &Vec<CharSpecifier>) -> (r: Vec<CharSpecifier>)
    ensures
        r@ == v@,
{
    let mut r: Vec<CharSpecifier> = Vec::new();
    let mut i: usize = 0;
    while i < v.len()
        invariant
            i <= v@.len(),
            r@ == v@.take(i as int),
        decreases v@.len() - i,
    {
        r.push(v[i]);
        i += 1;
        assert(r@ =~= v@.take(i as int));
    }
    assert(v@.take(i as int) =~= v@);
    r
}

fn clone_token(t: &PatternToken) -> (r: PatternToken)
    ensures
        r@ == t@,
{
    match t {
        PatternToken::Char(c) => PatternToken::Char(*c),
        PatternToken::AnyChar => PatternToken::AnyChar,
        PatternToken::AnySequence => PatternToken::AnySequence,
        PatternToken::AnyRecursiveSequence => PatternToken::AnyRecursiveSequence,
        PatternToken::AnyWithin(v) => PatternToken::AnyWithin(clone_specifiers(v)),
        PatternToken::AnyExcept(v) => PatternToken::AnyExcept(clone_specifiers(v)),
        PatternToken::StartCapture(n, b) => PatternToken::StartCapture(*n, *b),
        PatternToken::EndCapture(n, b) => PatternToken::EndCapture(*n, *b),
    }
}

impl Clone for Pattern {
    /// A pattern with the same text and tokens.
    fn clone(&self) -> (r: Self)
        ensures
            r.toks() == self.toks(),
            r.text() == self.text(),
            r.recursive() == self.recursive(),
    {
        proof {
            use_type_invariant(self);
        }
        let mut tokens: Vec<PatternToken> = Vec::new();
        let mut i: usize = 0;
        while i < self.tokens.len()
            invariant
                i <= self.tokens@.len(),
                toks_view(tokens@) == toks_view(self.tokens@.take(i as int)),
            decreases self.tokens@.len() - i,
        {
            let t = clone_token(&self.tokens[i]);
            let ghost before = tokens@;
            tokens.push(t);
            proof {
                assert(toks_view(before.push(t)) =~= toks_view(before).push(t@));
                assert(self.tokens@.take(i + 1) =~= self.tokens@.take(i as int).push(self.tokens@[i as int]));
                assert(toks_view(self.tokens@.take(i as int).push(self.tokens@[i as int])) =~= toks_view(
                    self.tokens@.take(i as int),
                ).push(self.tokens@[i as int]@));
            }
            i += 1;
        }
        assert(self.tokens@.take(i as int) =~= self.tokens@);
        Pattern { original: self.original.clone(), tokens, is_recursive: self.is_recursive }
    }
}

impl Default for Pattern {
    /// The pattern compiled from the empty text; it matches only the empty
    /// string.
    fn default() -> (p: Self)
        ensures
            p.toks() == Seq::<Tok>::empty(),
            p.text() == Seq::<char>::empty(),
            !p.recursive(),
    {
        Pattern::empty()
    }
}

impl std::str::FromStr for Pattern {
    type Err = PatternError;

    fn from_str(s: &str) -> (r: Result<Pattern, PatternError>)
        ensures
            new_options_post(s@, false, r),
    {
        Pattern::new(s)
    }
}

pub open spec fn state_of(
    tokens: Seq<PatternToken>,
    is_recursive: bool,
    last_capture: usize,
    stack: Seq<(usize, usize)>,
) -> ParseState {
    ParseState { tokens: toks_view(tokens), is_recursive, last_capture, stack }
}

pub open spec fn new_options_post(pattern: Seq<char>, skip: bool, r: Result<Pattern, PatternError>) -> bool {
    match (parse_pattern(pattern, skip), r) {
        (Ok(st), Ok(pat)) => pat.compiled_from(pattern, st),
        (Err(e), Err(err)) => err.describes(e),
        _ => false,
    }
}

impl Pattern {
    /// Compiles a Unix shell style pattern. An invalid pattern yields a
    /// `PatternError` at the first problem found.
    pub fn new(pattern: &str) -> (r: Result<Pattern, PatternError>)
        ensures
            new_options_post(pattern@, false, r),
    {
        Pattern::new_options(pattern, false)
    }

    /// Whether the pattern holds a recursive wildcard `**`.
    pub fn is_recursive(&self) -> (b: bool)
        ensures
            b == self.recursive(),
    {
        self.is_recursive
    }

    /// The original glob pattern, as a new string.
    pub fn to_string(&self) -> (s: String)
        ensures
            s@ == self.text(),
    {
        self.original.clone()
    }

    /// The original glob pattern.
    pub fn as_str(&self) -> (s: &str)
        ensures
            s@ == self.text(),
    {
        self.original.as_str()
    }

    /// Compiles a pattern; with `skip_groups` parentheses are ignored, as
    /// they are for the per-directory patterns of the file system walk.
    pub(crate) fn new_options(pattern: &str, skip_groups: bool) -> (r: Result<Pattern, PatternError>)
        ensures
            new_options_post(pattern@, skip_groups, r),
    {
        let chars = str_chars(pattern);
        let cs = chars.as_slice();
        let n = chars.len();
        let ghost p = pattern@;
        let mut tokens: Vec<PatternToken> = Vec::new();
        let mut is_recursive = false;
        let mut i: usize = 0;
        let mut last_capture: usize = 0;
        let mut captures_stack: Vec<(usize, usize)> = Vec::new();
        assert(toks_view(tokens@) =~= Seq::<Tok>::empty());
        assert(state_of(tokens@, is_recursive, last_capture, captures_stack@) == initial_state());

        while i < n
            invariant
                n == p.len(),
                cs@ == p,
                p == pattern@,
                i <= n,
                last_capture <= i,
                forall|k: int| 0 <= k < captures_stack@.len() ==> #[trigger] captures_stack@[k].1 < i,
                parse_from(p, 0, skip_groups, initial_state(), false) == parse_from(
                    p,
                    i as int,
                    skip_groups,
                    state_of(tokens@, is_recursive, last_capture, captures_stack@),
                    false,
                ),
            decreases n - i,
        {
            let ghost st = state_of(tokens@, is_recursive, last_capture, captures_stack@);
            let c = elem_at(cs, i);
            if c == '?' {
                tokens.push(PatternToken::AnyChar);
                assert(toks_view(tokens@) =~= st.tokens.push(Tok::AnyChar));
                i += 1;
            } else if c == '*' {
                let old = i;
                proof {
                    lemma_star_run_bound(p, old as int);
                }
                while i < n && elem_at(cs, i) == '*'
                    invariant
                        old <= i <= n,
                        n == p.len(),
                        cs@ == p,
                        i - old <= star_run(p, old as int),
                        forall|k: int| 0 <= k < star_run(p, old as int) ==> #[trigger] p[old + k] == '*',
                        old + star_run(p, old as int) < p.len() ==> p[old + star_run(p, old as int)] != '*',
                        old + star_run(p, old as int) <= p.len(),
                    decreases n - i,
                {
                    assert(p[old + (i - old)] == '*');
                    i += 1;
                }
                let count = i - old;
                assert(count == star_run(p, old as int)) by {
                    if count < star_run(p, old as int) {
                        assert(p[old + (i - old)] == '*');
                    }
                }
                assert(parse_from(p, old as int, skip_groups, st, false) == {
                    if count > 2 {
                        Err(SpecError { pos: old + 2, kind: ErrorKind::Wildcards })
                    } else if count == 2 {
                        let st1 = if st.tokens.len() > 1 && st.tokens.last() == Tok::AnyRec {
                            st
                        } else {
                            ParseState { is_recursive: true, ..st.push(Tok::AnyRec) }
                        };
                        if ends_with_sep(p, old as int) {
                            parse_from(p, old + 2, skip_groups, st1, true)
                        } else {
                            Err(SpecError { pos: old - 1, kind: ErrorKind::RecursiveWildcards })
                        }
                    } else {
                        parse_from(p, old + 1, skip_groups, st.push(Tok::AnySeq), false)
                    }
                });
                if count > 2 {
                    return Err(PatternError { pos: old + 2, msg: "wildcards are either regular `*` or recursive `**`" });
                } else if count == 2 {
                    let tokens_len = tokens.len();
                    if !(tokens_len > 1 && token_is_recursive(&tokens[tokens_len - 1])) {
                        is_recursive = true;
                        tokens.push(PatternToken::AnyRecursiveSequence);
                        assert(toks_view(tokens@) =~= st.tokens.push(Tok::AnyRec));
                    } else {
                        assert(st.tokens.last() == Tok::AnyRec);
                    }
                    if ends_with_sep_exec(cs, i - count) {
                        while i < n && (elem_at(cs, i) == '(' || elem_at(cs, i) == ')')
                            invariant
                                n == p.len(),
                                cs@ == p,
                                p == pattern@,
                                old + 2 <= i <= n,
                                last_capture <= i,
                                forall|k: int| 0 <= k < captures_stack@.len() ==> #[trigger] captures_stack@[k].1 < i,
                                parse_from(p, 0, skip_groups, initial_state(), false) == parse_from(
                                    p,
                                    i as int,
                                    skip_groups,
                                    state_of(tokens@, is_recursive, last_capture, captures_stack@),
                                    true,
                                ),
                            decreases n - i,
                        {
                            let ghost st2 = state_of(tokens@, is_recursive, last_capture, captures_stack@);
                            if !skip_groups {
                                if elem_at(cs, i) == '(' {
                                    captures_stack.push((last_capture, i));
                                    tokens.push(PatternToken::StartCapture(last_capture, true));
                                    last_capture += 1;
                                    assert(toks_view(tokens@) =~= st2.open_group(i as int, true).tokens);
                                    assert(state_of(tokens@, is_recursive, last_capture, captures_stack@)
                                        == st2.open_group(i as int, true));
                                } else {
                                    if captures_stack.len() == 0 {
                                        return Err(PatternError { pos: i, msg: "Unmatched closing paren" });
                                    }
                                    let top = captures_stack.pop().unwrap();
                                    tokens.push(PatternToken::EndCapture(top.0, true));
                                    assert(toks_view(tokens@) =~= st2.close_group(true).tokens);
                                    assert(captures_stack@ =~= st2.stack.drop_last());
                                }
                            }
                            i += 1;
                        }
                        if i < n && is_separator(elem_at(cs, i)) {
                            i += 1;
                        } else if i == n {
                        } else {
                            return Err(PatternError { pos: i, msg: "recursive wildcards must form a single path component" });
                        }
                    } else {
                        return Err(PatternError { pos: old - 1, msg: "recursive wildcards must form a single path component" });
                    }
                } else {
                    tokens.push(PatternToken::AnySequence);
                    assert(toks_view(tokens@) =~= st.tokens.push(Tok::AnySeq));
                }
            } else if c == '[' {
                if n - i >= 4 && elem_at(cs, i + 1) == '!' {
                    match find_close_exec(cs, i + 3) {
                        None => {
                            return Err(PatternError { pos: i, msg: "invalid range pattern" });
                        },
                        Some(q) => {
                            proof {
                                lemma_find_close_bound(p, i + 3);
                            }
                            let specs = parse_char_specifiers(&cs[i + 2..q]);
                            let ghost t = Tok::Except(specifiers_from(p.subrange(i + 2, q as int), 0));
                            tokens.push(PatternToken::AnyExcept(specs));
                            assert(toks_view(tokens@) =~= st.tokens.push(t));
                            i = q + 1;
                        },
                    }
                } else if n - i >= 3 && elem_at(cs, i + 1) != '!' {
                    match find_close_exec(cs, i + 2) {
                        None => {
                            return Err(PatternError { pos: i, msg: "invalid range pattern" });
                        },
                        Some(q) => {
                            proof {
                                lemma_find_close_bound(p, i + 2);
                            }
                            let specs = parse_char_specifiers(&cs[i + 1..q]);
                            let ghost t = Tok::Within(specifiers_from(p.subrange(i + 1, q as int), 0));
                            tokens.push(PatternToken::AnyWithin(specs));
                            assert(toks_view(tokens@) =~= st.tokens.push(t));
                            i = q + 1;
                        },
                    }
                } else {
                    return Err(PatternError { pos: i, msg: "invalid range pattern" });
                }
            } else if c == '(' {
                if !skip_groups {
                    captures_stack.push((last_capture, i));
                    tokens.push(PatternToken::StartCapture(last_capture, false));
                    last_capture += 1;
                    assert(toks_view(tokens@) =~= st.open_group(i as int, false).tokens);
                    assert(state_of(tokens@, is_recursive, last_capture, captures_stack@)
                        == st.open_group(i as int, false));
                }
                i += 1;
            } else if c == ')' {
                if !skip_groups {
                    if captures_stack.len() == 0 {
                        return Err(PatternError { pos: i, msg: "Unmatched closing paren" });
                    }
                    let top = captures_stack.pop().unwrap();
                    tokens.push(PatternToken::EndCapture(top.0, false));
                    assert(toks_view(tokens@) =~= st.close_group(false).tokens);
                    assert(captures_stack@ =~= st.stack.drop_last());
                }
                i += 1;
            } else {
                tokens.push(PatternToken::Char(c));
                assert(toks_view(tokens@) =~= st.tokens.push(Tok::Char(c)));
                i += 1;
            }
        }
        if captures_stack.len() > 0 {
            let first = captures_stack[0];
            return Err(PatternError { pos: first.1, msg: "Unmatched opening paren" });
        }
        proof {
            assert(stack_numbers(Seq::<(usize, usize)>::empty()) =~= Seq::<usize>::empty());
            assert(parse_inv(p, 0, initial_state(), false));
            lemma_parse_inv(p, 0, skip_groups, initial_state(), false);
            assert(stack_numbers(captures_stack@) =~= Seq::<usize>::empty());
        }
        Ok(Pattern { original: string_from_chars(cs), tokens, is_recursive })
    }
}

} // verus!

verus! {

pub proof fn lemma_push_last_non_capture(ts: Seq<Tok>, x: Tok)
    ensures
        last_non_capture(ts.push(x)) == if is_capture(x) { last_non_capture(ts) } else { Some(x) },
{
    assert(ts.push(x).drop_last() =~= ts);
}

pub proof fn lemma_push_open_groups(ts: Seq<Tok>, x: Tok)
    ensures
        open_groups(ts.push(x)) == match open_groups(ts) {
            None => None,
            Some(stack) => match x {
                Tok::Start(n, _) => Some(stack.push(n)),
                Tok::End(n, _) => if stack.len() > 0 && stack.last() == n {
                    Some(stack.drop_last())
                } else {
                    None
                },
                _ => Some(stack),
            },
        },
{
    assert(ts.push(x).drop_last() =~= ts);
}

pub proof fn lemma_push_rec_placed(ts: Seq<Tok>, x: Tok)
    requires
        rec_placed(ts),
        x is AnyRec ==> may_precede_rec(last_non_capture(ts)),
    ensures
        rec_placed(ts.push(x)),
{
    let ts2 = ts.push(x);
    assert forall|t: int| 0 <= t < ts2.len() && #[trigger] ts2[t] is AnyRec implies may_precede_rec(
        last_non_capture(ts2.take(t)),
    ) by {
        if t < ts.len() {
            assert(ts2.take(t) =~= ts.take(t));
            assert(ts[t] is AnyRec);
        } else {
            assert(ts2.take(t) =~= ts);
        }
    }
}

pub proof fn lemma_push_starts(ts: Seq<Tok>, x: Tok, k: usize)
    requires
        starts_increasing(ts),
        starts_below(ts, k),
        x is Start ==> x->Start_0 == k && k < usize::MAX,
    ensures
        starts_increasing(ts.push(x)),
        x is Start ==> starts_below(ts.push(x), (k + 1) as usize),
        !(x is Start) ==> starts_below(ts.push(x), k),
{
    let ts2 = ts.push(x);
    assert forall|a: int, b: int|
        0 <= a < b < ts2.len() && #[trigger] ts2[a] is Start && #[trigger] ts2[b] is Start
            implies ts2[a]->Start_0 < ts2[b]->Start_0 by {
        if b < ts.len() {
            assert(ts[a] is Start && ts[b] is Start);
        } else {
            assert(ts[a] is Start);
        }
    }
    if x is Start {
        assert forall|a: int| 0 <= a < ts2.len() && #[trigger] ts2[a] is Start implies ts2[a]->Start_0 < k + 1 by {
            if a < ts.len() {
                assert(ts[a] is Start);
            }
        }
    } else {
        assert forall|a: int| 0 <= a < ts2.len() && #[trigger] ts2[a] is Start implies ts2[a]->Start_0 < k by {
            if a < ts.len() {
                assert(ts[a] is Start);
            }
        }
    }
}

pub open spec fn stack_numbers(stack: Seq<(usize, usize)>) -> Seq<usize> {
    stack.map_values(|e: (usize, usize)| e.0)
}

/// What holds of the parser state at every step.
pub open spec fn parse_inv(p: Seq<char>, i: int, st: ParseState, after_rec: bool) -> bool {
    &&& open_groups(st.tokens) == Some(stack_numbers(st.stack))
    &&& starts_increasing(st.tokens)
    &&& starts_below(st.tokens, st.last_capture)
    &&& rec_placed(st.tokens)
    &&& after_rec ==> last_non_capture(st.tokens) == Some(Tok::AnyRec)
    &&& !after_rec && ends_with_sep(p, i) ==> may_precede_rec(last_non_capture(st.tokens))
    &&& st.last_capture <= i
    &&& 0 <= i
    &&& p.len() <= usize::MAX
    &&& !st.is_recursive ==> plain(st.tokens)
    &&& after_rec ==> st.is_recursive
}

/// What holds of the state that the parser ends in.
pub open spec fn parse_done(st: ParseState) -> bool {
    &&& open_groups(st.tokens) == Some(stack_numbers(st.stack))
    &&& starts_increasing(st.tokens)
    &&& rec_placed(st.tokens)
    &&& !st.is_recursive ==> plain(st.tokens)
}

pub proof fn lemma_push_plainness(ts: Seq<Tok>, x: Tok)
    ensures
        plain(ts.push(x)) == (plain(ts) && !(x is AnyRec) && !flagged(x)),
{
    let ts2 = ts.push(x);
    if plain(ts2) {
        assert forall|t: int| 0 <= t < ts.len() implies !(#[trigger] ts[t] is AnyRec) && !flagged(ts[t]) by {
            assert(ts2[t] == ts[t]);
        }
        assert(ts2[ts.len() as int] == x);
    }
    if plain(ts) && !(x is AnyRec) && !flagged(x) {
        assert forall|t: int| 0 <= t < ts2.len() implies !(#[trigger] ts2[t] is AnyRec) && !flagged(ts2[t]) by {
            if t < ts.len() {
                assert(ts2[t] == ts[t]);
            }
        }
    }
}

proof fn lemma_push_plain(p: Seq<char>, i: int, st: ParseState, x: Tok, next: int)
    requires
        parse_inv(p, i, st, false),
        !is_capture(x),
        !(x is AnyRec),
        0 <= i < next <= p.len(),
        next - 1 >= 0,
        !is_paren(p[next - 1]),
        is_sep(p[next - 1]) ==> x == Tok::Char(p[next - 1]),
    ensures
        parse_inv(p, next, st.push(x), false),
{
    lemma_push_plainness(st.tokens, x);
    lemma_push_last_non_capture(st.tokens, x);
    lemma_push_open_groups(st.tokens, x);
    lemma_push_rec_placed(st.tokens, x);
    lemma_push_starts(st.tokens, x, st.last_capture);
}

proof fn lemma_open_group(p: Seq<char>, i: int, st: ParseState, flag: bool, after_rec: bool)
    requires
        parse_inv(p, i, st, after_rec),
        0 <= i < p.len(),
        p[i] == '(',
        flag ==> after_rec,
    ensures
        parse_inv(p, i + 1, st.open_group(i, flag), after_rec),
{
    let x = Tok::Start(st.last_capture, flag);
    lemma_push_plainness(st.tokens, x);
    lemma_push_last_non_capture(st.tokens, x);
    lemma_push_open_groups(st.tokens, x);
    lemma_push_rec_placed(st.tokens, x);
    lemma_push_starts(st.tokens, x, st.last_capture);
    let st2 = st.open_group(i, flag);
    assert(stack_numbers(st2.stack) =~= stack_numbers(st.stack).push(st.last_capture));
}

proof fn lemma_close_group(p: Seq<char>, i: int, st: ParseState, flag: bool, after_rec: bool)
    requires
        parse_inv(p, i, st, after_rec),
        0 <= i < p.len(),
        p[i] == ')',
        st.stack.len() > 0,
        flag ==> after_rec,
    ensures
        parse_inv(p, i + 1, st.close_group(flag), after_rec),
{
    let x = Tok::End(st.stack.last().0, flag);
    lemma_push_plainness(st.tokens, x);
    lemma_push_last_non_capture(st.tokens, x);
    lemma_push_open_groups(st.tokens, x);
    lemma_push_rec_placed(st.tokens, x);
    lemma_push_starts(st.tokens, x, st.last_capture);
    let st2 = st.close_group(flag);
    assert(stack_numbers(st2.stack) =~= stack_numbers(st.stack).drop_last());
}

/// The parser keeps its invariant, so what it ends with is well formed.
pub proof fn lemma_parse_inv(p: Seq<char>, i: int, skip: bool, st: ParseState, after_rec: bool)
    requires
        parse_inv(p, i, st, after_rec),
    ensures
        parse_from(p, i, skip, st, after_rec) matches Ok(st2) ==> parse_done(st2),
    decreases p.len() - i,
{
    if i < 0 || i >= p.len() {
    } else if after_rec {
        let c = p[i];
        if is_paren(c) {
            if skip {
                lemma_parse_inv(p, i + 1, skip, st, true);
            } else if c == '(' {
                lemma_open_group(p, i, st, true, true);
                lemma_parse_inv(p, i + 1, skip, st.open_group(i, true), true);
            } else if st.stack.len() == 0 {
            } else {
                lemma_close_group(p, i, st, true, true);
                lemma_parse_inv(p, i + 1, skip, st.close_group(true), true);
            }
        } else if is_sep(c) {
            lemma_parse_inv(p, i + 1, skip, st, false);
        }
    } else {
        let c = p[i];
        if c == '?' {
            lemma_push_plain(p, i, st, Tok::AnyChar, i + 1);
            lemma_parse_inv(p, i + 1, skip, st.push(Tok::AnyChar), false);
        } else if c == '*' {
            let count = star_run(p, i);
            lemma_star_run_bound(p, i);
            if count == 2 {
                if ends_with_sep(p, i) {
                    let st1 = if st.tokens.len() > 1 && st.tokens.last() == Tok::AnyRec {
                        st
                    } else {
                        ParseState { is_recursive: true, ..st.push(Tok::AnyRec) }
                    };
                    if st.tokens.len() > 1 && st.tokens.last() == Tok::AnyRec {
                        assert(st.tokens[st.tokens.len() - 1] is AnyRec);
                    } else {
                        lemma_push_plainness(st.tokens, Tok::AnyRec);
                        lemma_push_last_non_capture(st.tokens, Tok::AnyRec);
                        lemma_push_open_groups(st.tokens, Tok::AnyRec);
                        lemma_push_rec_placed(st.tokens, Tok::AnyRec);
                        lemma_push_starts(st.tokens, Tok::AnyRec, st.last_capture);
                    }
                    assert(p[i + 1] == '*');
                    lemma_parse_inv(p, i + 2, skip, st1, true);
                }
            } else if count == 1 {
                lemma_push_plain(p, i, st, Tok::AnySeq, i + 1);
                lemma_parse_inv(p, i + 1, skip, st.push(Tok::AnySeq), false);
            }
        } else if c == '[' {
            if i + 4 <= p.len() && p[i + 1] == '!' {
                lemma_find_close_bound(p, i + 3);
                if let Some(q) = find_close(p, i + 3) {
                    let x = Tok::Except(specifiers_from(p.subrange(i + 2, q), 0));
                    lemma_push_plain(p, i, st, x, q + 1);
                    lemma_parse_inv(p, q + 1, skip, st.push(x), false);
                }
            } else if i + 3 <= p.len() && p[i + 1] != '!' {
                lemma_find_close_bound(p, i + 2);
                if let Some(q) = find_close(p, i + 2) {
                    let x = Tok::Within(specifiers_from(p.subrange(i + 1, q), 0));
                    lemma_push_plain(p, i, st, x, q + 1);
                    lemma_parse_inv(p, q + 1, skip, st.push(x), false);
                }
            }
        } else if c == '(' {
            if skip {
                lemma_parse_inv(p, i + 1, skip, st, false);
            } else {
                lemma_open_group(p, i, st, false, false);
                lemma_parse_inv(p, i + 1, skip, st.open_group(i, false), false);
            }
        } else if c == ')' {
            if skip {
                lemma_parse_inv(p, i + 1, skip, st, false);
            } else if st.stack.len() > 0 {
                lemma_close_group(p, i, st, false, false);
                lemma_parse_inv(p, i + 1, skip, st.close_group(false), false);
            }
        } else {
            lemma_push_plain(p, i, st, Tok::Char(c), i + 1);
            lemma_parse_inv(p, i + 1, skip, st.push(Tok::Char(c)), false);
        }
    }
}

} // verus!

verus! {

/// A run of at least three `*` starts at `j`.
pub open spec fn three_stars_at(p: Seq<char>, j: int) -> bool {
    0 <= j && j + 2 < p.len() && p[j] == '*' && p[j + 1] == '*' && p[j + 2] == '*'
}

proof fn lemma_three_star_run(p: Seq<char>, j: int)
    requires
        three_stars_at(p, j),
    ensures
        star_run(p, j) >= 3,
{
    lemma_star_run_bound(p, j);
    let r = star_run(p, j);
    if r < 3 {
        assert(p[j + r] == '*');
    }
}

/// Walking back from three `*` at `j` to the first `*` of their run.
proof fn lemma_run_start(p: Seq<char>, j: int) -> (k: int)
    requires
        three_stars_at(p, j),
    ensures
        0 <= k <= j,
        three_stars_at(p, k),
        k == 0 || p[k - 1] != '*',
    decreases j,
{
    if j > 0 && p[j - 1] == '*' {
        lemma_run_start(p, j - 1)
    } else {
        j
    }
}

/// Without brackets, the parser does not get past a run of three `*` that
/// starts at or after where it stands.
proof fn lemma_three_stars_stop(p: Seq<char>, i: int, skip: bool, st: ParseState, after_rec: bool, j: int)
    requires
        forall|k: int| 0 <= k < p.len() ==> #[trigger] p[k] != '[',
        0 <= i <= j,
        three_stars_at(p, j),
        j == 0 || p[j - 1] != '*',
    ensures
        parse_from(p, i, skip, st, after_rec) is Err,
    decreases p.len() - i,
{
    let c = p[i];
    if after_rec {
        if is_paren(c) {
            if skip {
                lemma_three_stars_stop(p, i + 1, skip, st, true, j);
            } else if c == '(' {
                lemma_three_stars_stop(p, i + 1, skip, st.open_group(i, true), true, j);
            } else if st.stack.len() > 0 {
                lemma_three_stars_stop(p, i + 1, skip, st.close_group(true), true, j);
            }
        } else if is_sep(c) {
            lemma_three_stars_stop(p, i + 1, skip, st, false, j);
        }
    } else if i == j {
        lemma_three_star_run(p, j);
    } else if c == '?' {
        lemma_three_stars_stop(p, i + 1, skip, st.push(Tok::AnyChar), false, j);
    } else if c == '*' {
        lemma_star_run_bound(p, i);
        let count = star_run(p, i);
        if i + count > j - 1 {
            assert(p[i + (j - 1 - i)] == '*');
        }
        if count == 2 {
            let st1 = if st.tokens.len() > 1 && st.tokens.last() == Tok::AnyRec {
                st
            } else {
                ParseState { is_recursive: true, ..st.push(Tok::AnyRec) }
            };
            if ends_with_sep(p, i) {
                lemma_three_stars_stop(p, i + 2, skip, st1, true, j);
            }
        } else if count == 1 {
            lemma_three_stars_stop(p, i + 1, skip, st.push(Tok::AnySeq), false, j);
        }
    } else if c == '(' {
        if skip {
            lemma_three_stars_stop(p, i + 1, skip, st, false, j);
        } else {
            lemma_three_stars_stop(p, i + 1, skip, st.open_group(i, false), false, j);
        }
    } else if c == ')' {
        if skip {
            lemma_three_stars_stop(p, i + 1, skip, st, false, j);
        } else if st.stack.len() > 0 {
            lemma_three_stars_stop(p, i + 1, skip, st.close_group(false), false, j);
        }
    } else {
        lemma_three_stars_stop(p, i + 1, skip, st.push(Tok::Char(c)), false, j);
    }
}

/// A pattern without brackets that holds three `*` in a row does not
/// compile. (Inside brackets `*` is a literal char: `[***]` is valid.)
pub proof fn law_three_stars_rejected(p: Seq<char>, skip: bool, j: int)
    requires
        forall|k: int| 0 <= k < p.len() ==> #[trigger] p[k] != '[',
        three_stars_at(p, j),
    ensures
        parse_pattern(p, skip) is Err,
{
    let k = lemma_run_start(p, j);
    lemma_three_stars_stop(p, 0, skip, initial_state(), false, k);
}

/// The parser reaches the run of `*` at `j` through chars that are neither
/// `*`, `[` nor `)`, and fails there.
proof fn lemma_three_stars_pos(p: Seq<char>, i: int, skip: bool, st: ParseState, j: int)
    requires
        forall|k: int| 0 <= k < j ==> #[trigger] p[k] != '*' && p[k] != '[' && p[k] != ')',
        0 <= i <= j,
        three_stars_at(p, j),
    ensures
        parse_from(p, i, skip, st, false) == Err::<ParseState, SpecError>(
            SpecError { pos: j + 2, kind: ErrorKind::Wildcards },
        ),
    decreases j - i,
{
    let c = p[i];
    if i == j {
        lemma_three_star_run(p, j);
    } else if c == '?' {
        lemma_three_stars_pos(p, i + 1, skip, st.push(Tok::AnyChar), j);
    } else if c == '(' {
        if skip {
            lemma_three_stars_pos(p, i + 1, skip, st, j);
        } else {
            lemma_three_stars_pos(p, i + 1, skip, st.open_group(i, false), j);
        }
    } else {
        lemma_three_stars_pos(p, i + 1, skip, st.push(Tok::Char(c)), j);
    }
}

/// Where the first `*` of a pattern starts a run of three or more and no
/// `[` or `)` comes before it, the error is the wildcard error at the
/// third `*` of that run.
pub proof fn law_three_stars_error_at_third(p: Seq<char>, skip: bool, j: int)
    requires
        forall|k: int| 0 <= k < j ==> #[trigger] p[k] != '*' && p[k] != '[' && p[k] != ')',
        three_stars_at(p, j),
    ensures
        parse_pattern(p, skip) == Err::<ParseState, SpecError>(SpecError { pos: j + 2, kind: ErrorKind::Wildcards }),
{
    lemma_three_stars_pos(p, 0, skip, initial_state(), j);
}

} // verus!
