use vstd::prelude::*;

use crate::options::MatchOptions;
use crate::pattern::{Pattern, PatternToken, Tok};
use crate::entry::{Entry, groups_within};
use crate::matching::spec_matches;
use crate::capture::{spec_captures, entry_is};
use crate::paths::{seq_less, lemma_desc_order_total, join, join_path, is_curdir, path_is_curdir, file_name, path_file_name, desc_leq, sort_names_desc, strings_view};
use crate::strings::push_char;

verus! {

#[verifier::external_type_specification]
#[verifier::external_body]
pub struct ExIoError(std::io::Error);

/// A glob iteration error: a path whose contents could not be read to find
/// out whether they match.
#[derive(Debug)]
pub struct GlobError {
    path: String,
    error: std::io::Error,
}

impl GlobError {
    pub closed spec fn path_text(&self) -> Seq<char> {
        self.path@
    }

    pub closed spec fn io_error(&self) -> &std::io::Error {
        &self.error
    }

    /// The error that reading `path` gave.
    pub(crate) fn new(path: String, error: std::io::Error) -> (e: GlobError)
        ensures
            e.path_text() == path@,
            e.io_error() == &error,
    {
        GlobError { path, error }
    }

    /// The path that the error corresponds to.
    pub fn path(&self) -> (p: &str)
        ensures
            p@ == self.path_text(),
    {
        self.path.as_str()
    }

    /// The error in question.
    pub fn error(&self) -> (e: &std::io::Error)
        ensures
            e == self.io_error(),
    {
        &self.error
    }
}

/// A matching entry, or a directory that could not be read.
pub type GlobResult = Result<Entry, GlobError>;

/// An item of the work list of the walk.
#[derive(Debug)]
pub enum Todo {
    /// A path to be matched against the directory pattern with this index,
    /// or (`None`) one that is already known to match.
    Candidate(String, Option<usize>),
    /// A directory that could not be read.
    Failed(GlobError),
}

/// What the walk waits to be told about the file system.
#[derive(Debug)]
pub enum Waiting {
    Nothing,
    /// Whether a path that a literal component names is there: it is then
    /// added for the component with this index.
    Literal(usize, String),
    /// Whether a path is a directory whose entries are to be listed for the
    /// component with this index.
    DirForListing(usize, String),
    /// The entries of a directory, for the component with this index.
    Listing(usize, String),
    /// Whether a matched path is a directory, as the pattern ends in a
    /// separator.
    EntryDir(String),
    /// Whether a path met by `**` (up to the component with this index) is a
    /// directory.
    RecursiveDir(String, usize),
    /// Whether a path that matched the last component is a directory.
    MatchedDir(String),
}

/// What the walk does once its pending directory reads are done.
#[derive(Debug)]
pub enum AfterJobs {
    Resume,
    /// Yield this path.
    YieldPath(String),
    /// Match this path against the component with this index.
    MatchComponent(String, usize),
}

/// An iterator-like walk of the file system that yields the paths, with
/// their capture groups, that match a pattern. It does no I/O itself: its
/// `step` asks for what it needs to know about the file system.
#[derive(Debug)]
pub struct Entries {
    whole_pattern: Pattern,
    dir_patterns: Vec<Pattern>,
    require_dir: bool,
    options: MatchOptions,
    todo: Vec<Todo>,
    scope: Option<String>,
    jobs: Vec<(usize, String)>,
    waiting: Waiting,
    after: AfterJobs,
}



/// A question about the file system.
#[derive(Debug)]
pub enum Query {
    /// Is this path a directory?
    IsDir(String),
    /// Is there anything at this path?
    Exists(String),
    /// What are the names in this directory?
    ReadDir(String),
}

/// The answer to a `Query`.
#[derive(Debug)]
pub enum Reply {
    /// The answer to `IsDir` or `Exists`.
    Flag(bool),
    /// The names of the entries of a directory, in any order.
    Listing(Vec<String>),
    /// The directory could not be read.
    Unreadable(std::io::Error),
}

/// What one step of the walk comes to.
#[derive(Debug)]
pub enum Step {
    /// The walk needs this answer to go on.
    Ask(Query),
    /// A matching path, or a directory that could not be read.
    Yield(Result<Entry, GlobError>),
    /// The walk went on by one step.
    Continue,
    /// Nothing more matches.
    Finished,
}

// ---------------------------------------------------------------------
// The mathematical form of the walk
// ---------------------------------------------------------------------

pub enum TodoModel {
    Candidate(Seq<char>, Option<usize>),
    Failed(Seq<char>, std::io::Error),
}

pub enum WaitModel {
    Nothing,
    Literal(usize, Seq<char>),
    DirForListing(usize, Seq<char>),
    Listing(usize, Seq<char>),
    EntryDir(Seq<char>),
    RecursiveDir(Seq<char>, usize),
    MatchedDir(Seq<char>),
}

pub enum AfterModel {
    Resume,
    YieldPath(Seq<char>),
    MatchComponent(Seq<char>, usize),
}

pub struct WalkView {
    pub todo: Seq<TodoModel>,
    pub scope: Option<Seq<char>>,
    pub jobs: Seq<(usize, Seq<char>)>,
    pub waiting: WaitModel,
    pub after: AfterModel,
}

pub enum QueryModel {
    IsDir(Seq<char>),
    Exists(Seq<char>),
    ReadDir(Seq<char>),
}

pub enum ReplyModel {
    Flag(bool),
    Listing(Seq<Seq<char>>),
    Unreadable(std::io::Error),
}

pub enum StepModel {
    Ask(QueryModel),
    YieldEntry(Seq<char>, Seq<(usize, usize)>),
    YieldError(Seq<char>, std::io::Error),
    Continue,
    Finished,
}

pub open spec fn todo_model(t: Todo) -> TodoModel {
    match t {
        Todo::Candidate(p, i) => TodoModel::Candidate(p@, i),
        Todo::Failed(g) => TodoModel::Failed(g.path_text(), *g.io_error()),
    }
}

pub open spec fn wait_model(w: Waiting) -> WaitModel {
    match w {
        Waiting::Nothing => WaitModel::Nothing,
        Waiting::Literal(i, p) => WaitModel::Literal(i, p@),
        Waiting::DirForListing(i, p) => WaitModel::DirForListing(i, p@),
        Waiting::Listing(i, p) => WaitModel::Listing(i, p@),
        Waiting::EntryDir(p) => WaitModel::EntryDir(p@),
        Waiting::RecursiveDir(p, i) => WaitModel::RecursiveDir(p@, i),
        Waiting::MatchedDir(p) => WaitModel::MatchedDir(p@),
    }
}

pub open spec fn after_model(a: AfterJobs) -> AfterModel {
    match a {
        AfterJobs::Resume => AfterModel::Resume,
        AfterJobs::YieldPath(p) => AfterModel::YieldPath(p@),
        AfterJobs::MatchComponent(p, i) => AfterModel::MatchComponent(p@, i),
    }
}

pub open spec fn reply_model(r: Option<Reply>) -> Option<ReplyModel> {
    match r {
        None => None,
        Some(Reply::Flag(b)) => Some(ReplyModel::Flag(b)),
        Some(Reply::Listing(v)) => Some(ReplyModel::Listing(strings_view(v@))),
        Some(Reply::Unreadable(e)) => Some(ReplyModel::Unreadable(e)),
    }
}

pub open spec fn query_is(q: Query, m: QueryModel) -> bool {
    match (q, m) {
        (Query::IsDir(p), QueryModel::IsDir(t)) => p@ == t,
        (Query::Exists(p), QueryModel::Exists(t)) => p@ == t,
        (Query::ReadDir(p), QueryModel::ReadDir(t)) => p@ == t,
        _ => false,
    }
}

/// Whether an executable step is the one that the model describes.
pub open spec fn step_is(s: Step, m: StepModel) -> bool {
    match (s, m) {
        (Step::Ask(q), StepModel::Ask(qm)) => query_is(q, qm),
        (Step::Yield(Ok(e)), StepModel::YieldEntry(p, g)) => e.path_text() == p && e.group_ranges() == g,
        (Step::Yield(Err(e)), StepModel::YieldError(p, err)) => e.path_text() == p && *e.io_error() == err,
        (Step::Continue, StepModel::Continue) => true,
        (Step::Finished, StepModel::Finished) => true,
        _ => false,
    }
}

/// The text of a pattern without metacharacters.
pub open spec fn literal_of(toks: Seq<Tok>) -> Option<Seq<char>> {
    if forall|k: int| 0 <= k < toks.len() ==> #[trigger] toks[k] is Char {
        Some(toks.map_values(|t: Tok| t->Char_0))
    } else {
        None
    }
}

/// The last of a run of `**` components that starts at `idx`.
pub open spec fn collapse(dirs: Seq<Pattern>, idx: int) -> int
    decreases dirs.len() - idx,
{
    if 0 <= idx && idx + 1 < dirs.len() && dirs[idx + 1].recursive() {
        collapse(dirs, idx + 1)
    } else {
        idx
    }
}

/// A path found for component `idx` is known to match where that is the
/// last component, and is to be looked into for the next one otherwise.
pub open spec fn add_found(dirs: Seq<Pattern>, st: WalkView, idx: int, p: Seq<char>) -> WalkView {
    if idx + 1 == dirs.len() {
        WalkView { todo: st.todo.push(TodoModel::Candidate(p, None)), ..st }
    } else {
        WalkView { jobs: st.jobs.push(((idx + 1) as usize, p)), ..st }
    }
}

/// Starts looking into `path` for component `idx`: a component without
/// metacharacters names one path, whose presence is asked about (for `.`
/// and `..` it is whether `path` is a directory); for other components it
/// is asked whether `path` is a directory to list.
pub open spec fn fill_start(dirs: Seq<Pattern>, st: WalkView, idx: usize, path: Seq<char>) -> (WalkView, StepModel) {
    match literal_of(dirs[idx as int].toks()) {
        Some(s) => {
            let np = if is_curdir(path) { s } else { join(path, s) };
            let st2 = WalkView { waiting: WaitModel::Literal(idx, np), ..st };
            if s == seq!['.'] || s == seq!['.', '.'] {
                (st2, StepModel::Ask(QueryModel::IsDir(path)))
            } else {
                (st2, StepModel::Ask(QueryModel::Exists(np)))
            }
        },
        None => (WalkView { waiting: WaitModel::DirForListing(idx, path), ..st }, StepModel::Ask(QueryModel::IsDir(path))),
    }
}

/// A found path is yielded with the groups that the whole pattern captures
/// in it (none where the whole pattern does not match it).
pub open spec fn entry_for(whole: Pattern, o: MatchOptions, path: Seq<char>) -> StepModel {
    match spec_captures(whole.toks(), path, o) {
        Some(g) => StepModel::YieldEntry(path, g),
        None => StepModel::YieldEntry(path, Seq::empty()),
    }
}

/// A path that matched the last component is yielded with the groups of
/// the whole pattern.
pub open spec fn final_match(whole: Pattern, o: MatchOptions, st: WalkView, path: Seq<char>) -> (WalkView, StepModel) {
    (st, entry_for(whole, o, path))
}

/// Whether the last component of `path` starts with a `.`.
pub open spec fn hidden(path: Seq<char>) -> bool {
    match file_name(path) {
        Some(n) => n.len() > 0 && n[0] == '.',
        None => false,
    }
}

/// Matches the file name of `path` against component `idx`.
pub open spec fn match_step(
    dirs: Seq<Pattern>,
    whole: Pattern,
    dir_only: bool,
    o: MatchOptions,
    st: WalkView,
    path: Seq<char>,
    idx: usize,
) -> (WalkView, StepModel) {
    match file_name(path) {
        None => (st, StepModel::Continue),
        Some(name) => if spec_matches(dirs[idx as int].toks(), name, o) {
            if idx + 1 == dirs.len() {
                if dir_only {
                    (WalkView { waiting: WaitModel::MatchedDir(path), ..st }, StepModel::Ask(QueryModel::IsDir(path)))
                } else {
                    final_match(whole, o, st, path)
                }
            } else {
                (WalkView { jobs: st.jobs.push(((idx + 1) as usize, path)), ..st }, StepModel::Continue)
            }
        } else {
            (st, StepModel::Continue)
        },
    }
}

/// The special entries `.` and `..` of `path` that component `idx` matches;
/// they are looked at only where the component starts with a literal `.`.
pub open spec fn specials(dirs: Seq<Pattern>, o: MatchOptions, idx: usize, path: Seq<char>) -> Seq<Seq<char>> {
    let toks = dirs[idx as int].toks();
    if toks.len() > 0 && toks[0] == Tok::Char('.') {
        let dot = if spec_matches(toks, seq!['.'], o) { seq![join(path, seq!['.'])] } else { Seq::empty() };
        let dotdot = if spec_matches(toks, seq!['.', '.'], o) { seq![join(path, seq!['.', '.'])] } else { Seq::empty() };
        dot + dotdot
    } else {
        Seq::empty()
    }
}

/// The path of a directory entry: the bare name in the current directory.
pub open spec fn child_path(dir: Seq<char>, name: Seq<char>) -> Seq<char> {
    if is_curdir(dir) {
        name
    } else {
        join(dir, name)
    }
}

/// After listing directory `path` for component `idx`: its entries, in
/// descending order of their names so that they are taken up in ascending
/// order, then the special entries that match, so that they are taken up
/// first, `.` before `..` (for the last component directly; otherwise their
/// reads are started `..` first, so that what is found below `.` goes on the
/// work list last).
pub open spec fn after_listing(
    dirs: Seq<Pattern>,
    o: MatchOptions,
    st: WalkView,
    idx: usize,
    path: Seq<char>,
    names: Seq<Seq<char>>,
) -> WalkView {
    let sorted = names.sort_by(desc_leq());
    let children = sorted.map_values(|n: Seq<char>| TodoModel::Candidate(child_path(path, n), Some(idx)));
    let st2 = WalkView { todo: st.todo + children, ..st };
    let sp = specials(dirs, o, idx, path);
    if idx + 1 == dirs.len() {
        WalkView { todo: st2.todo + sp.reverse().map_values(|p: Seq<char>| TodoModel::Candidate(p, None)), ..st2 }
    } else {
        WalkView { jobs: st2.jobs + sp.map_values(|p: Seq<char>| ((idx + 1) as usize, p)), ..st2 }
    }
}

pub open spec fn flag_of(reply: Option<ReplyModel>) -> bool {
    match reply {
        Some(ReplyModel::Flag(b)) => b,
        _ => false,
    }
}

/// The step taken with the answer to what the walk waited for (`st` no
/// longer waits).
pub open spec fn answer_step(
    dirs: Seq<Pattern>,
    whole: Pattern,
    dir_only: bool,
    o: MatchOptions,
    st: WalkView,
    w: WaitModel,
    reply: Option<ReplyModel>,
) -> (WalkView, StepModel) {
    let b = flag_of(reply);
    match w {
        WaitModel::Nothing => (st, StepModel::Continue),
        WaitModel::Literal(idx, np) => if b {
            (add_found(dirs, st, idx as int, np), StepModel::Continue)
        } else {
            (st, StepModel::Continue)
        },
        WaitModel::DirForListing(idx, path) => if b {
            (WalkView { waiting: WaitModel::Listing(idx, path), ..st }, StepModel::Ask(QueryModel::ReadDir(path)))
        } else {
            (st, StepModel::Continue)
        },
        WaitModel::Listing(idx, path) => match reply {
            Some(ReplyModel::Listing(names)) => (after_listing(dirs, o, st, idx, path, names), StepModel::Continue),
            Some(ReplyModel::Unreadable(e)) => (
                WalkView { todo: st.todo.push(TodoModel::Failed(path, e)), ..st },
                StepModel::Continue,
            ),
            _ => (after_listing(dirs, o, st, idx, path, Seq::empty()), StepModel::Continue),
        },
        WaitModel::EntryDir(path) => if b {
            (st, entry_for(whole, o, path))
        } else {
            (st, StepModel::Continue)
        },
        WaitModel::RecursiveDir(path, next) => if b {
            (
                WalkView {
                    jobs: st.jobs.push((next, path)),
                    after: if next + 1 == dirs.len() {
                        AfterModel::YieldPath(path)
                    } else {
                        AfterModel::MatchComponent(path, (next + 1) as usize)
                    },
                    ..st
                },
                StepModel::Continue,
            )
        } else if next + 1 < dirs.len() {
            (WalkView { after: AfterModel::MatchComponent(path, (next + 1) as usize), ..st }, StepModel::Continue)
        } else {
            (st, StepModel::Continue)
        },
        WaitModel::MatchedDir(path) => if b {
            final_match(whole, o, st, path)
        } else {
            (st, StepModel::Continue)
        },
    }
}

/// The step taken when the walk waits for nothing: pending directory
/// reads first, then what was to follow them, then the next item of the
/// work list (the first step starts the walk at its start directory).
pub open spec fn idle_step(dirs: Seq<Pattern>, whole: Pattern, dir_only: bool, o: MatchOptions, st: WalkView) -> (WalkView, StepModel) {
    if st.jobs.len() > 0 {
        let (idx, path) = st.jobs.last();
        fill_start(dirs, WalkView { jobs: st.jobs.drop_last(), ..st }, idx, path)
    } else {
        match st.after {
            AfterModel::YieldPath(p) => (WalkView { after: AfterModel::Resume, ..st }, entry_for(whole, o, p)),
            AfterModel::MatchComponent(p, idx) => match_step(dirs, whole, dir_only, o, WalkView { after: AfterModel::Resume, ..st }, p, idx),
            AfterModel::Resume => match st.scope {
                Some(sc) => (
                    WalkView {
                        scope: None,
                        jobs: if dirs.len() > 0 { st.jobs.push((0usize, sc)) } else { st.jobs },
                        ..st
                    },
                    StepModel::Continue,
                ),
                None => if dirs.len() == 0 || st.todo.len() == 0 {
                    (st, StepModel::Finished)
                } else {
                    let st2 = WalkView { todo: st.todo.drop_last(), ..st };
                    match st.todo.last() {
                        TodoModel::Failed(p, e) => (st2, StepModel::YieldError(p, e)),
                        TodoModel::Candidate(path, None) => if dir_only {
                            (WalkView { waiting: WaitModel::EntryDir(path), ..st2 }, StepModel::Ask(QueryModel::IsDir(path)))
                        } else {
                            (st2, entry_for(whole, o, path))
                        },
                        TodoModel::Candidate(path, Some(idx)) => if dirs[idx as int].recursive() {
                            let next = collapse(dirs, idx as int);
                            if o.require_literal_leading_dot && hidden(path) {
                                if next + 1 < dirs.len() {
                                    match_step(dirs, whole, dir_only, o, st2, path, (next + 1) as usize)
                                } else {
                                    (st2, StepModel::Continue)
                                }
                            } else {
                                (
                                    WalkView { waiting: WaitModel::RecursiveDir(path, next as usize), ..st2 },
                                    StepModel::Ask(QueryModel::IsDir(path)),
                                )
                            }
                        } else {
                            match_step(dirs, whole, dir_only, o, st2, path, idx)
                        },
                    }
                },
            },
        }
    }
}

/// One step of the walk, given the answer to the question of the step
/// before (if it asked one).
pub open spec fn walk(dirs: Seq<Pattern>, whole: Pattern, dir_only: bool, o: MatchOptions, st: WalkView, reply: Option<ReplyModel>) -> (WalkView, StepModel) {
    match st.waiting {
        WaitModel::Nothing => idle_step(dirs, whole, dir_only, o, st),
        w => answer_step(dirs, whole, dir_only, o, WalkView { waiting: WaitModel::Nothing, ..st }, w, reply),
    }
}

/// A work-list item names a component index below `n`.
pub open spec fn todo_index_ok(t: Todo, n: nat) -> bool {
    match t {
        Todo::Candidate(_, Some(i)) => i < n,
        _ => true,
    }
}

/// What the walk waits for names a component index below `n`.
pub open spec fn wait_index_ok(w: Waiting, n: nat) -> bool {
    match w {
        Waiting::Literal(i, _) => i < n,
        Waiting::DirForListing(i, _) => i < n,
        Waiting::Listing(i, _) => i < n,
        Waiting::RecursiveDir(_, i) => i < n,
        _ => true,
    }
}

/// What follows the pending reads names a component index below `n`.
pub open spec fn after_index_ok(a: AfterJobs, n: nat) -> bool {
    match a {
        AfterJobs::MatchComponent(_, i) => i < n,
        _ => true,
    }
}

impl Entries {
    pub closed spec fn whole(&self) -> Pattern {
        self.whole_pattern
    }

    pub closed spec fn dirs(&self) -> Seq<Pattern> {
        self.dir_patterns@
    }

    pub closed spec fn dir_only(&self) -> bool {
        self.require_dir
    }

    pub closed spec fn opts(&self) -> MatchOptions {
        self.options
    }

    /// The state of the walk.
    pub closed spec fn view_walk(&self) -> WalkView {
        WalkView {
            todo: self.todo@.map_values(|t: Todo| todo_model(t)),
            scope: match self.scope {
                Some(s) => Some(s@),
                None => None,
            },
            jobs: self.jobs@.map_values(|j: (usize, String)| (j.0, j.1@)),
            waiting: wait_model(self.waiting),
            after: after_model(self.after),
        }
    }

    pub open spec fn start(&self) -> Option<Seq<char>> {
        self.view_walk().scope
    }

    /// Whether the walk has not begun: nothing is waiting or pending.
    pub open spec fn fresh(&self) -> bool {
        &&& self.view_walk().todo.len() == 0
        &&& self.view_walk().jobs.len() == 0
        &&& self.view_walk().waiting is Nothing
        &&& self.view_walk().after is Resume
    }

    /// Component indices in the walk state stay below the number of
    /// components.
    #[verifier::type_invariant]
    spec fn indices_ok(self) -> bool {
        let n = self.dir_patterns@.len();
        &&& forall|k: int| 0 <= k < self.todo@.len() ==> todo_index_ok(#[trigger] self.todo@[k], n)
        &&& forall|k: int| 0 <= k < self.jobs@.len() ==> #[trigger] self.jobs@[k].0 < n
        &&& wait_index_ok(self.waiting, n)
        &&& after_index_ok(self.after, n)
    }

    /// A walk that has not begun.
    pub(crate) fn begin(
        whole_pattern: Pattern,
        dir_patterns: Vec<Pattern>,
        require_dir: bool,
        options: MatchOptions,
        scope: String,
    ) -> (e: Entries)
        ensures
            e.whole() == whole_pattern,
            e.dirs() == dir_patterns@,
            e.dir_only() == require_dir,
            e.opts() == options,
            e.start() == Some(scope@),
            e.fresh(),
    {
        let e = Entries {
            whole_pattern,
            dir_patterns,
            require_dir,
            options,
            todo: Vec::new(),
            scope: Some(scope),
            jobs: Vec::new(),
            waiting: Waiting::Nothing,
            after: AfterJobs::Resume,
        };
        assert(e.view_walk().todo =~= Seq::<TodoModel>::empty());
        assert(e.view_walk().jobs =~= Seq::<(usize, Seq<char>)>::empty());
        e
    }
}


/// The text of a pattern without metacharacters, if it has none.
fn literal_text(p: &Pattern) -> (r: Option<String>)
    ensures
        match (r, literal_of(p.toks())) {
            (Some(s), Some(t)) => s@ == t,
            (None, None) => true,
            _ => false,
        },
{
    let n = p.token_count();
    let ghost toks = p.toks();
    let mut s = String::new();
    let mut k: usize = 0;
    while k < n
        invariant
            n == toks.len(),
            toks == p.toks(),
            k <= n,
            forall|j: int| 0 <= j < k ==> #[trigger] toks[j] is Char,
            s@ == toks.take(k as int).map_values(|t: Tok| t->Char_0),
        decreases n - k,
    {
        match p.token_at(k) {
            PatternToken::Char(c) => {
                push_char(&mut s, *c);
                assert(toks.take(k + 1).map_values(|t: Tok| t->Char_0) =~= toks.take(k as int).map_values(
                    |t: Tok| t->Char_0,
                ).push(*c));
            },
            _ => {
                assert(!(toks[k as int] is Char));
                return None;
            },
        }
        k += 1;
    }
    assert(toks.take(n as int) =~= toks);
    Some(s)
}

/// The setup of the walk: the patterns, whether only directories are
/// wanted, and the options.
pub open spec fn same_setup(a: Entries, b: Entries) -> bool {
    &&& a.whole() == b.whole()
    &&& a.dirs() == b.dirs()
    &&& a.dir_only() == b.dir_only()
    &&& a.opts() == b.opts()
}

fn string_of(s: &String) -> (r: String)
    ensures
        r@ == s@,
{
    s.clone()
}

fn dot_string(n: usize) -> (r: String)
    requires
        1 <= n <= 2,
    ensures
        n == 1 ==> r@ == seq!['.'],
        n == 2 ==> r@ == seq!['.', '.'],
{
    let mut r = String::new();
    push_char(&mut r, '.');
    if n == 2 {
        push_char(&mut r, '.');
    }
    r
}

impl Entries {
    fn dir_count(&self) -> (n: usize)
        ensures
            n == self.dirs().len(),
    {
        self.dir_patterns.len()
    }

    fn dir_at(&self, i: usize) -> (p: &Pattern)
        requires
            i < self.dirs().len(),
        ensures
            *p == self.dirs()[i as int],
    {
        &self.dir_patterns[i]
    }

    fn push_todo(&mut self, t: Todo)
        requires
            todo_index_ok(t, old(self).dirs().len()),
        ensures
            same_setup(*final(self), *old(self)),
            final(self).view_walk() == (WalkView { todo: old(self).view_walk().todo.push(todo_model(t)), ..old(self).view_walk() }),
    {
        proof {
            use_type_invariant(&*self);
        }
        let ghost old_todo = self.todo@;
        let mut todo = Vec::new();
        std::mem::swap(&mut todo, &mut self.todo);
        todo.push(t);
        self.todo = todo;
        assert(self.todo@.map_values(|x: Todo| todo_model(x)) =~= old_todo.map_values(|x: Todo| todo_model(x)).push(todo_model(t)));
        assert forall|k: int| 0 <= k < self.todo@.len() implies todo_index_ok(#[trigger] self.todo@[k], self.dir_patterns@.len()) by {
            if k < old_todo.len() {
                assert(self.todo@[k] == old_todo[k]);
            }
        }
    }

    fn push_job(&mut self, idx: usize, path: String)
        requires
            idx < old(self).dirs().len(),
        ensures
            same_setup(*final(self), *old(self)),
            final(self).view_walk() == (WalkView { jobs: old(self).view_walk().jobs.push((idx, path@)), ..old(self).view_walk() }),
    {
        proof {
            use_type_invariant(&*self);
        }
        let ghost old_jobs = self.jobs@;
        let mut jobs = Vec::new();
        std::mem::swap(&mut jobs, &mut self.jobs);
        jobs.push((idx, path));
        self.jobs = jobs;
        assert(self.jobs@.map_values(|j: (usize, String)| (j.0, j.1@)) =~= old_jobs.map_values(
            |j: (usize, String)| (j.0, j.1@),
        ).push((idx, path@)));
        assert forall|k: int| 0 <= k < self.jobs@.len() implies #[trigger] self.jobs@[k].0 < self.dir_patterns@.len() by {
            if k < old_jobs.len() {
                assert(self.jobs@[k] == old_jobs[k]);
            }
        }
    }

    fn set_waiting(&mut self, w: Waiting)
        requires
            wait_index_ok(w, old(self).dirs().len()),
        ensures
            same_setup(*final(self), *old(self)),
            final(self).view_walk() == (WalkView { waiting: wait_model(w), ..old(self).view_walk() }),
    {
        proof {
            use_type_invariant(&*self);
        }
        self.waiting = w;
    }

    fn set_after(&mut self, a: AfterJobs)
        requires
            after_index_ok(a, old(self).dirs().len()),
        ensures
            same_setup(*final(self), *old(self)),
            final(self).view_walk() == (WalkView { after: after_model(a), ..old(self).view_walk() }),
    {
        proof {
            use_type_invariant(&*self);
        }
        self.after = a;
    }

    /// Notes a path found for component `idx`.
    fn add_found(&mut self, idx: usize, p: String)
        requires
            idx < old(self).dirs().len(),
        ensures
            same_setup(*final(self), *old(self)),
            final(self).view_walk() == add_found(old(self).dirs(), old(self).view_walk(), idx as int, p@),
    {
        let n = self.dir_count();
        if idx + 1 == n {
            self.push_todo(Todo::Candidate(p, None));
        } else {
            self.push_job(idx + 1, p);
        }
    }

    /// The last of a run of `**` components that starts at `idx`.
    fn collapse(&self, idx: usize) -> (r: usize)
        requires
            idx < self.dirs().len(),
        ensures
            r == collapse(self.dirs(), idx as int),
            idx <= r < self.dirs().len(),
    {
        let n = self.dir_count();
        let mut next = idx;
        while next + 1 < n && self.dir_at(next + 1).is_recursive()
            invariant
                n == self.dirs().len(),
                idx <= next < n,
                collapse(self.dirs(), idx as int) == collapse(self.dirs(), next as int),
            decreases n - next,
        {
            next += 1;
        }
        next
    }

    fn fill_start(&mut self, idx: usize, path: String) -> (s: Step)
        requires
            idx < old(self).dirs().len(),
        ensures
            same_setup(*final(self), *old(self)),
            ({
                let (st, m) = fill_start(old(self).dirs(), old(self).view_walk(), idx, path@);
                final(self).view_walk() == st && step_is(s, m)
            }),
    {
        match literal_text(self.dir_at(idx)) {
            Some(s) => {
                let np = if path_is_curdir(path.as_str()) {
                    string_of(&s)
                } else {
                    join_path(path.as_str(), s.as_str())
                };
                let chars = crate::strings::str_chars(s.as_str());
                let special = (chars.len() == 1 && crate::options::elem_at(chars.as_slice(), 0) == '.') || (chars.len()
                    == 2 && crate::options::elem_at(chars.as_slice(), 0) == '.' && crate::options::elem_at(
                    chars.as_slice(),
                    1,
                ) == '.');
                proof {
                    if chars.len() == 1 && chars@[0] == '.' {
                        assert(s@ =~= seq!['.']);
                    }
                    if chars.len() == 2 && chars@[0] == '.' && chars@[1] == '.' {
                        assert(s@ =~= seq!['.', '.']);
                    }
                    if s@ == seq!['.'] {
                        assert(chars@[0] == '.');
                    }
                    if s@ == seq!['.', '.'] {
                        assert(chars@[0] == '.' && chars@[1] == '.');
                    }
                }
                let q = if special {
                    Query::IsDir(path)
                } else {
                    Query::Exists(string_of(&np))
                };
                self.set_waiting(Waiting::Literal(idx, np));
                Step::Ask(q)
            },
            None => {
                let q = Query::IsDir(string_of(&path));
                self.set_waiting(Waiting::DirForListing(idx, path));
                Step::Ask(q)
            },
        }
    }

    fn final_match(&mut self, path: String) -> (s: Step)
        ensures
            same_setup(*final(self), *old(self)),
            ({
                let (st, m) = final_match(old(self).whole(), old(self).opts(), old(self).view_walk(), path@);
                final(self).view_walk() == st && step_is(s, m)
            }),
    {
        self.entry_for(path)
    }

    /// The entry for a found path, with the groups of the whole pattern.
    fn entry_for(&self, path: String) -> (s: Step)
        ensures
            step_is(s, entry_for(self.whole(), self.opts(), path@)),
    {
        match self.whole_pattern.captures_path_with(Some(path.as_str()), &self.options) {
            Some(e) => Step::Yield(Ok(e)),
            None => Step::Yield(Ok(Entry::new(path))),
        }
    }

    fn match_step(&mut self, path: String, idx: usize) -> (s: Step)
        requires
            idx < old(self).dirs().len(),
        ensures
            same_setup(*final(self), *old(self)),
            ({
                let (st, m) = match_step(
                    old(self).dirs(),
                    old(self).whole(),
                    old(self).dir_only(),
                    old(self).opts(),
                    old(self).view_walk(),
                    path@,
                    idx,
                );
                final(self).view_walk() == st && step_is(s, m)
            }),
    {
        let n = self.dir_count();
        match path_file_name(path.as_str()) {
            None => Step::Continue,
            Some(name) => {
                if self.dir_at(idx).matches_with(name.as_str(), &self.options) {
                    if idx + 1 == n {
                        if self.require_dir {
                            let q = Query::IsDir(string_of(&path));
                            self.set_waiting(Waiting::MatchedDir(path));
                            Step::Ask(q)
                        } else {
                            self.final_match(path)
                        }
                    } else {
                        self.push_job(idx + 1, path);
                        Step::Continue
                    }
                } else {
                    Step::Continue
                }
            },
        }
    }
}


/// Whether a pattern starts with a literal `.`.
fn starts_with_dot(p: &Pattern) -> (b: bool)
    ensures
        b == (p.toks().len() > 0 && p.toks()[0] == Tok::Char('.')),
{
    if p.token_count() == 0 {
        return false;
    }
    match p.token_at(0) {
        PatternToken::Char(c) => *c == '.',
        _ => false,
    }
}

/// Executable form of `hidden`.
fn path_hidden(path: &str) -> (b: bool)
    ensures
        b == hidden(path@),
{
    match path_file_name(path) {
        Some(n) => {
            let chars = crate::strings::str_chars(n.as_str());
            chars.len() > 0 && crate::options::elem_at(chars.as_slice(), 0) == '.'
        },
        None => false,
    }
}

fn name_at(v: &Vec<String>, i: usize) -> (s: &String)
    requires
        i < v@.len(),
    ensures
        s@ == v@[i as int]@,
{
    &v[i]
}

impl Entries {
    /// Puts the entries of the listed directory `path` on the work list,
    /// then the special entries that component `idx` matches.
    fn after_listing(&mut self, idx: usize, path: String, names: Vec<String>)
        requires
            idx < old(self).dirs().len(),
        ensures
            same_setup(*final(self), *old(self)),
            final(self).view_walk() == after_listing(
                old(self).dirs(),
                old(self).opts(),
                old(self).view_walk(),
                idx,
                path@,
                strings_view(names@),
            ),
    {
        let ghost st0 = self.view_walk();
        let ghost dirs = self.dirs();
        let sorted = sort_names_desc(names);
        let ghost children = strings_view(sorted@).map_values(
            |n: Seq<char>| TodoModel::Candidate(child_path(path@, n), Some(idx)),
        );
        let n = sorted.len();
        let is_cur = path_is_curdir(path.as_str());
        let mut k: usize = 0;
        assert(st0.todo + children.take(0) =~= st0.todo);
        assert(self.view_walk() == (WalkView { todo: st0.todo + children.take(0), ..st0 }));
        while k < n
            invariant
                n == sorted@.len(),
                k <= n,
                idx < self.dirs().len(),
                dirs == self.dirs(),
                same_setup(*self, *old(self)),
                is_cur == is_curdir(path@),
                children == strings_view(sorted@).map_values(
                    |n: Seq<char>| TodoModel::Candidate(child_path(path@, n), Some(idx)),
                ),
                self.view_walk() == (WalkView { todo: st0.todo + children.take(k as int), ..st0 }),
            decreases n - k,
        {
            let name = name_at(&sorted, k);
            let child = if is_cur {
                string_of(name)
            } else {
                join_path(path.as_str(), name.as_str())
            };
            self.push_todo(Todo::Candidate(child, Some(idx)));
            assert(st0.todo + children.take(k + 1) =~= (st0.todo + children.take(k as int)).push(children[k as int]));
            k += 1;
        }
        assert(children.take(n as int) =~= children);
        let ghost st2 = self.view_walk();
        let count = self.dir_count();
        let last = idx + 1 == count;
        let ghost sp = specials(dirs, self.opts(), idx, path@);
        if starts_with_dot(self.dir_at(idx)) {
            let dot = dot_string(1);
            let dotdot = dot_string(2);
            let m1 = self.dir_at(idx).matches_with(dot.as_str(), &self.options);
            let m2 = self.dir_at(idx).matches_with(dotdot.as_str(), &self.options);
            let p1 = join_path(path.as_str(), dot.as_str());
            let p2 = join_path(path.as_str(), dotdot.as_str());
            if last {
                if m2 {
                    self.push_todo(Todo::Candidate(p2, None));
                }
                if m1 {
                    self.push_todo(Todo::Candidate(p1, None));
                }
                assert(self.view_walk().todo =~= st2.todo + sp.reverse().map_values(|q: Seq<char>| TodoModel::Candidate(q, None)));
            } else {
                if m1 {
                    self.push_job(idx + 1, p1);
                }
                if m2 {
                    self.push_job(idx + 1, p2);
                }
                assert(self.view_walk().jobs =~= st2.jobs + sp.map_values(|q: Seq<char>| ((idx + 1) as usize, q)));
            }
        } else {
            assert(sp =~= Seq::<Seq<char>>::empty());
            if last {
                assert(st2.todo + sp.reverse().map_values(|q: Seq<char>| TodoModel::Candidate(q, None)) =~= st2.todo);
            } else {
                assert(st2.jobs + sp.map_values(|q: Seq<char>| ((idx + 1) as usize, q)) =~= st2.jobs);
            }
        }
    }
}


impl Entries {
    /// Takes out what the walk waits for; it then waits for nothing.
    fn take_waiting(&mut self) -> (w: Waiting)
        ensures
            same_setup(*final(self), *old(self)),
            wait_model(w) == old(self).view_walk().waiting,
            wait_index_ok(w, old(self).dirs().len()),
            final(self).view_walk() == (WalkView { waiting: WaitModel::Nothing, ..old(self).view_walk() }),
    {
        proof {
            use_type_invariant(&*self);
        }
        let mut w = Waiting::Nothing;
        std::mem::swap(&mut w, &mut self.waiting);
        w
    }

    /// Takes out what was to follow the pending reads.
    fn take_after(&mut self) -> (a: AfterJobs)
        ensures
            same_setup(*final(self), *old(self)),
            after_model(a) == old(self).view_walk().after,
            after_index_ok(a, old(self).dirs().len()),
            final(self).view_walk() == (WalkView { after: AfterModel::Resume, ..old(self).view_walk() }),
    {
        proof {
            use_type_invariant(&*self);
        }
        let mut a = AfterJobs::Resume;
        std::mem::swap(&mut a, &mut self.after);
        a
    }

    /// Takes out the start directory, if the walk has not started.
    fn take_scope(&mut self) -> (sc: Option<String>)
        ensures
            same_setup(*final(self), *old(self)),
            old(self).view_walk().scope == (match sc {
                Some(t) => Some(t@),
                None => None::<Seq<char>>,
            }),
            final(self).view_walk() == (WalkView { scope: None, ..old(self).view_walk() }),
    {
        proof {
            use_type_invariant(&*self);
        }
        let mut sc = None;
        std::mem::swap(&mut sc, &mut self.scope);
        sc
    }

    fn job_count(&self) -> (n: usize)
        ensures
            n == self.view_walk().jobs.len(),
    {
        self.jobs.len()
    }

    fn todo_count(&self) -> (n: usize)
        ensures
            n == self.view_walk().todo.len(),
    {
        self.todo.len()
    }

    /// Takes the last pending directory read.
    fn pop_job(&mut self) -> (j: (usize, String))
        requires
            old(self).view_walk().jobs.len() > 0,
        ensures
            same_setup(*final(self), *old(self)),
            (j.0, j.1@) == old(self).view_walk().jobs.last(),
            j.0 < old(self).dirs().len(),
            final(self).view_walk() == (WalkView { jobs: old(self).view_walk().jobs.drop_last(), ..old(self).view_walk() }),
    {
        proof {
            use_type_invariant(&*self);
        }
        let ghost old_jobs = self.jobs@;
        let mut jobs = Vec::new();
        std::mem::swap(&mut jobs, &mut self.jobs);
        let j = jobs.pop().unwrap();
        self.jobs = jobs;
        assert(self.jobs@.map_values(|j: (usize, String)| (j.0, j.1@)) =~= old_jobs.map_values(
            |j: (usize, String)| (j.0, j.1@),
        ).drop_last());
        assert(self.jobs@ == old_jobs.drop_last());
        assert forall|k: int| 0 <= k < self.jobs@.len() implies #[trigger] self.jobs@[k].0 < self.dir_patterns@.len() by {
            assert(self.jobs@[k] == old_jobs[k]);
        }
        assert(old_jobs[old_jobs.len() - 1] == j);
        j
    }

    /// Takes the last item of the work list.
    fn pop_todo(&mut self) -> (t: Todo)
        requires
            old(self).view_walk().todo.len() > 0,
        ensures
            same_setup(*final(self), *old(self)),
            todo_model(t) == old(self).view_walk().todo.last(),
            todo_index_ok(t, old(self).dirs().len()),
            final(self).view_walk() == (WalkView { todo: old(self).view_walk().todo.drop_last(), ..old(self).view_walk() }),
    {
        proof {
            use_type_invariant(&*self);
        }
        let ghost old_todo = self.todo@;
        let mut todo = Vec::new();
        std::mem::swap(&mut todo, &mut self.todo);
        let t = todo.pop().unwrap();
        self.todo = todo;
        assert(self.todo@.map_values(|x: Todo| todo_model(x)) =~= old_todo.map_values(|x: Todo| todo_model(x)).drop_last());
        assert(self.todo@ == old_todo.drop_last());
        assert forall|k: int| 0 <= k < self.todo@.len() implies todo_index_ok(#[trigger] self.todo@[k], self.dir_patterns@.len()) by {
            assert(self.todo@[k] == old_todo[k]);
        }
        assert(old_todo[old_todo.len() - 1] == t);
        t
    }
}


impl Entries {
    /// The step taken with the answer `reply` to what the walk waited for.
    fn answer(&mut self, w: Waiting, reply: Option<Reply>) -> (s: Step)
        requires
            wait_index_ok(w, old(self).dirs().len()),
        ensures
            same_setup(*final(self), *old(self)),
            ({
                let (st, m) = answer_step(
                    old(self).dirs(),
                    old(self).whole(),
                    old(self).dir_only(),
                    old(self).opts(),
                    old(self).view_walk(),
                    wait_model(w),
                    reply_model(reply),
                );
                final(self).view_walk() == st && step_is(s, m)
            }),
    {
        let b = match &reply {
            Some(Reply::Flag(f)) => *f,
            _ => false,
        };
        match w {
            Waiting::Nothing => Step::Continue,
            Waiting::Literal(idx, np) => {
                if b {
                    self.add_found(idx, np);
                }
                Step::Continue
            },
            Waiting::DirForListing(idx, path) => {
                if b {
                    let q = Query::ReadDir(string_of(&path));
                    self.set_waiting(Waiting::Listing(idx, path));
                    Step::Ask(q)
                } else {
                    Step::Continue
                }
            },
            Waiting::Listing(idx, path) => {
                match reply {
                    Some(Reply::Listing(names)) => {
                        self.after_listing(idx, path, names);
                    },
                    Some(Reply::Unreadable(e)) => {
                        self.push_todo(Todo::Failed(GlobError::new(path, e)));
                    },
                    _ => {
                        let none: Vec<String> = Vec::new();
                        assert(strings_view(none@) =~= Seq::<Seq<char>>::empty());
                        self.after_listing(idx, path, none);
                    },
                }
                Step::Continue
            },
            Waiting::EntryDir(path) => {
                if b {
                    self.entry_for(path)
                } else {
                    Step::Continue
                }
            },
            Waiting::RecursiveDir(path, next) => {
                let n = self.dir_count();
                if b {
                    let after = if next + 1 == n {
                        AfterJobs::YieldPath(string_of(&path))
                    } else {
                        AfterJobs::MatchComponent(string_of(&path), next + 1)
                    };
                    self.push_job(next, path);
                    self.set_after(after);
                } else if next + 1 < n {
                    self.set_after(AfterJobs::MatchComponent(path, next + 1));
                }
                Step::Continue
            },
            Waiting::MatchedDir(path) => {
                if b {
                    self.final_match(path)
                } else {
                    Step::Continue
                }
            },
        }
    }

    /// The step taken when the walk waits for nothing.
    fn idle(&mut self) -> (s: Step)
        requires
            old(self).view_walk().waiting is Nothing,
        ensures
            same_setup(*final(self), *old(self)),
            ({
                let (st, m) = idle_step(
                    old(self).dirs(),
                    old(self).whole(),
                    old(self).dir_only(),
                    old(self).opts(),
                    old(self).view_walk(),
                );
                final(self).view_walk() == st && step_is(s, m)
            }),
    {
        if self.job_count() > 0 {
            let (idx, path) = self.pop_job();
            return self.fill_start(idx, path);
        }
        match self.take_after() {
            AfterJobs::YieldPath(p) => self.entry_for(p),
            AfterJobs::MatchComponent(p, idx) => self.match_step(p, idx),
            AfterJobs::Resume => {
                match self.take_scope() {
                    Some(sc) => {
                        if self.dir_count() > 0 {
                            self.push_job(0, sc);
                        }
                        Step::Continue
                    },
                    None => {
                        if self.dir_count() == 0 || self.todo_count() == 0 {
                            return Step::Finished;
                        }
                        match self.pop_todo() {
                            Todo::Failed(g) => Step::Yield(Err(g)),
                            Todo::Candidate(path, None) => {
                                if self.require_dir {
                                    let q = Query::IsDir(string_of(&path));
                                    self.set_waiting(Waiting::EntryDir(path));
                                    Step::Ask(q)
                                } else {
                                    self.entry_for(path)
                                }
                            },
                            Todo::Candidate(path, Some(idx)) => {
                                if self.dir_at(idx).is_recursive() {
                                    let next = self.collapse(idx);
                                    if self.options.require_literal_leading_dot && path_hidden(path.as_str()) {
                                        if next + 1 < self.dir_count() {
                                            self.match_step(path, next + 1)
                                        } else {
                                            Step::Continue
                                        }
                                    } else {
                                        let q = Query::IsDir(string_of(&path));
                                        self.set_waiting(Waiting::RecursiveDir(path, next));
                                        Step::Ask(q)
                                    }
                                } else {
                                    self.match_step(path, idx)
                                }
                            },
                        }
                    },
                }
            },
        }
    }

    /// One step of the walk. `reply` answers the question that the step
    /// before asked (`Step::Ask`); it is not looked at otherwise. The steps
    /// yield, in order, what iterating over the matches of the pattern
    /// yields, and `Step::Finished` at the end.
    pub fn step(&mut self, reply: Option<Reply>) -> (s: Step)
        ensures
            same_setup(*final(self), *old(self)),
            ({
                let (st, m) = walk(
                    old(self).dirs(),
                    old(self).whole(),
                    old(self).dir_only(),
                    old(self).opts(),
                    old(self).view_walk(),
                    reply_model(reply),
                );
                final(self).view_walk() == st && step_is(s, m)
            }),
    {
        let w = self.take_waiting();
        match w {
            Waiting::Nothing => self.idle(),
            w => self.answer(w, reply),
        }
    }
}


// ---------------------------------------------------------------------
// Laws of the walk
// ---------------------------------------------------------------------

/// Once the walk has finished it stays finished: the finishing step leaves
/// the state as it was, and any later step, whatever it is told, finishes
/// again.
pub proof fn law_finished_is_final(
    dirs: Seq<Pattern>,
    whole: Pattern,
    dir_only: bool,
    o: MatchOptions,
    st: WalkView,
    reply: Option<ReplyModel>,
    later: Option<ReplyModel>,
)
    requires
        walk(dirs, whole, dir_only, o, st, reply).1 is Finished,
    ensures
        walk(dirs, whole, dir_only, o, st, reply).0 == st,
        walk(dirs, whole, dir_only, o, st, later) == (st, StepModel::Finished),
{
}

/// Every entry the walk yields carries the groups that the whole pattern
/// captures in its path, where the whole pattern matches it, and no groups
/// otherwise.
pub proof fn law_entries_carry_groups(
    dirs: Seq<Pattern>,
    whole: Pattern,
    dir_only: bool,
    o: MatchOptions,
    st: WalkView,
    reply: Option<ReplyModel>,
)
    requires
        walk(dirs, whole, dir_only, o, st, reply).1 is YieldEntry,
    ensures
        walk(dirs, whole, dir_only, o, st, reply).1 == entry_for(
            whole,
            o,
            walk(dirs, whole, dir_only, o, st, reply).1->YieldEntry_0,
        ),
{
}

/// Under `require_literal_leading_dot`, a `**` component never goes into a
/// path whose name starts with `.`: the walk never asks whether such a path
/// is a directory to descend into.
pub proof fn law_recursion_skips_hidden(
    dirs: Seq<Pattern>,
    whole: Pattern,
    dir_only: bool,
    o: MatchOptions,
    st: WalkView,
    reply: Option<ReplyModel>,
)
    requires
        o.require_literal_leading_dot,
        walk(dirs, whole, dir_only, o, st, reply).0.waiting is RecursiveDir,
    ensures
        !hidden(walk(dirs, whole, dir_only, o, st, reply).0.waiting->RecursiveDir_0),
{
}

/// A directory that could not be read does not stop the walk: yielding its
/// error only takes it off the work list, and everything else stays.
pub proof fn law_error_keeps_walking(
    dirs: Seq<Pattern>,
    whole: Pattern,
    dir_only: bool,
    o: MatchOptions,
    st: WalkView,
    reply: Option<ReplyModel>,
)
    requires
        walk(dirs, whole, dir_only, o, st, reply).1 is YieldError,
    ensures
        st.todo.len() > 0,
        st.todo.last() is Failed,
        walk(dirs, whole, dir_only, o, st, reply).0 == (WalkView { todo: st.todo.drop_last(), ..st }),
{
}

/// The entries of a listed directory go on the end of the work list once
/// each, in descending order of name; as the walk takes items from the end
/// of the list, it takes them up in ascending (alphabetical) order. The
/// special entries that the last component matches go after them, so they
/// are taken up first, `.` before `..`; for an earlier component their reads
/// are started `..` first, so that what is found below `.` is taken up
/// first.
pub proof fn law_listing_in_alphabetical_order(
    dirs: Seq<Pattern>,
    o: MatchOptions,
    st: WalkView,
    idx: usize,
    path: Seq<char>,
    names: Seq<Seq<char>>,
)
    ensures
        ({
            let after = after_listing(dirs, o, st, idx, path, names).todo;
            let sorted = names.sort_by(desc_leq());
            &&& sorted.to_multiset() == names.to_multiset()
            &&& sorted.len() == names.len()
            &&& after.len() >= st.todo.len() + names.len()
            &&& after.take(st.todo.len() as int) == st.todo
            &&& forall|k: int| 0 <= k < names.len() ==> #[trigger] after[st.todo.len() + k]
                == TodoModel::Candidate(child_path(path, sorted[k]), Some(idx))
            &&& forall|i: int, j: int| 0 <= i < j < names.len() ==> !seq_less(#[trigger] sorted[i], #[trigger] sorted[j])
        }),
        ({
            let st2 = after_listing(dirs, o, st, idx, path, names);
            let sp = specials(dirs, o, idx, path);
            &&& sp.len() <= 2
            &&& forall|k: int| 0 <= k < sp.len() ==> #[trigger] sp[k] == join(path, seq!['.']) || sp[k] == join(path, seq!['.', '.'])
            &&& sp.len() == 2 ==> sp[0] == join(path, seq!['.']) && sp[1] == join(path, seq!['.', '.'])
            &&& seq_less(seq!['.'], seq!['.', '.'])
            &&& idx + 1 == dirs.len() ==> {
                &&& st2.todo.len() == st.todo.len() + names.len() + sp.len()
                &&& forall|k: int| 0 <= k < sp.len() ==> #[trigger] st2.todo[st2.todo.len() - 1 - k]
                    == TodoModel::Candidate(sp[k], None)
                &&& st2.jobs == st.jobs
            }
            &&& idx + 1 != dirs.len() ==> {
                &&& st2.todo.len() == st.todo.len() + names.len()
                &&& st2.jobs.len() == st.jobs.len() + sp.len()
                &&& forall|k: int| 0 <= k < sp.len() ==> #[trigger] st2.jobs[st2.jobs.len() - 1 - k]
                    == ((idx + 1) as usize, sp[sp.len() - 1 - k])
            }
        }),
{
    lemma_desc_order_total();
    names.lemma_sort_by_ensures(desc_leq());
    let sorted = names.sort_by(desc_leq());
    sorted.to_multiset_ensures();
    names.to_multiset_ensures();
    let after = after_listing(dirs, o, st, idx, path, names).todo;
    assert(after.take(st.todo.len() as int) =~= st.todo);
    assert forall|i: int, j: int| 0 <= i < j < names.len() implies !seq_less(#[trigger] sorted[i], #[trigger] sorted[j]) by {
        assert(desc_leq()(sorted[i], sorted[j]));
    }
    assert(seq_less(seq!['.'], seq!['.', '.'])) by {
        reveal_with_fuel(seq_less, 2);
        assert(seq!['.'].drop_first() =~= Seq::<char>::empty());
        assert(seq!['.', '.'].drop_first() =~= seq!['.']);
    }
}

} // verus!
