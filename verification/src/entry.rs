use vstd::prelude::*;
use vstd::string::StrSliceExecFns;

verus! {

/// Whether every group lies inside a text of `len` chars: `start <= end <= len`.
pub open spec fn groups_within(groups: Seq<(usize, usize)>, len: nat) -> bool {
    forall|k: int| 0 <= k < groups.len() ==> #[trigger] groups[k].0 <= groups[k].1 && groups[k].1 <= len
}

/// A matched path together with the char ranges of its capture groups.
#[derive(Debug)]
pub struct Entry {
    path: String,
    groups: Vec<(usize, usize)>,
}

impl Entry {
    #[verifier::type_invariant]
    spec fn groups_in_path(self) -> bool {
        groups_within(self.groups@, self.path@.len())
    }

    /// The chars of the path.
    pub closed spec fn path_text(&self) -> Seq<char> {
        self.path@
    }

    /// The char range of each group, group 1 first.
    pub closed spec fn group_ranges(&self) -> Seq<(usize, usize)> {
        self.groups@
    }

    /// An entry without groups.
    pub(crate) fn new(path: String) -> (e: Entry)
        ensures
            e.path_text() == path@,
            e.group_ranges() == Seq::<(usize, usize)>::empty(),
    {
        Entry { path, groups: Vec::new() }
    }

    /// An entry with the given group ranges.
    pub(crate) fn with_captures(path: String, capt: Vec<(usize, usize)>) -> (e: Entry)
        requires
            groups_within(capt@, path@.len()),
        ensures
            e.path_text() == path@,
            e.group_ranges() == capt@,
    {
        Entry { path, groups: capt }
    }

    /// The path of this entry.
    pub fn path(&self) -> (p: &str)
        ensures
            p@ == self.path_text(),
    {
        self.path.as_str()
    }

    /// Capture group number `n`. Groups are numbered from 1 as in regular
    /// expressions; group 0 is the whole path.
    pub fn group(&self, n: usize) -> (g: Option<&str>)
        ensures
            n == 0 ==> (g matches Some(t) && t@ == self.path_text()),
            0 < n <= self.group_ranges().len() ==> (g matches Some(t) && t@ == self.path_text().subrange(
                self.group_ranges()[n - 1].0 as int,
                self.group_ranges()[n - 1].1 as int,
            )),
            n > self.group_ranges().len() ==> g is None,
    {
        proof {
            use_type_invariant(self);
        }
        if n == 0 {
            return Some(self.path.as_str());
        }
        if n - 1 < self.groups.len() {
            let (a, b) = self.groups[n - 1];
            assert(self.groups@[n - 1].0 <= self.groups@[n - 1].1);
            Some(self.path.as_str().substring_char(a, b))
        } else {
            None
        }
    }

    /// The path of this entry, by value.
    pub fn into_path(self) -> (p: String)
        ensures
            p@ == self.path_text(),
    {
        self.path
    }
}

} // verus!
