//! Walking the cgroup hierarchy: which directory to read next and what a
//! directory's listing adds, for counting the cgroups and for listing them.
//! Paths are relative to the hierarchy's root, which is the empty path.
use vstd::prelude::*;
use vstd::string::StringExecFns;
use crate::field::{Field, IoFailure};
use crate::order::{ascending, sort_strings, string_eq};
use crate::text::{push_str, string_views};

verus! {

broadcast use {vstd::seq_lib::group_to_multiset_ensures, vstd::multiset::group_multiset_axioms};

/// One entry of a directory listing: its name and whether it is a
/// directory (symbolic links followed).
pub struct DirEntry {
    pub name: String,
    pub is_dir: bool,
}

/// What reading a directory gave.
pub enum Listing {
    Entries(Vec<DirEntry>),
    Failed(IoFailure),
}

/// The field a walk reports when a directory cannot be read.
pub open spec fn walk_failure<T>(kind: IoFailure) -> Field<T> {
    match kind {
        IoFailure::PermissionDenied => Field::PermissionDenied,
        _ => Field::IoError,
    }
}

/// The field a walk reports when a directory cannot be read.
fn walk_error<T>(kind: IoFailure) -> (r: Field<T>)
    ensures
        r == walk_failure::<T>(kind),
{
    match kind {
        IoFailure::PermissionDenied => Field::PermissionDenied,
        _ => Field::IoError,
    }
}

/// The path of an entry named `name` in the directory `dir`.
pub open spec fn child_path(dir: Seq<char>, name: Seq<char>) -> Seq<char> {
    if dir.len() == 0 {
        name
    } else {
        dir + "/"@ + name
    }
}

/// The path of an entry named `name` in the directory `dir`.
pub fn child_of(dir: &str, name: &str) -> (r: String)
    ensures
        r@ == child_path(dir@, name@),
{
    let mut out = String::from_str(dir);
    if out.as_str().unicode_len() > 0 {
        push_str(&mut out, "/");
    }
    push_str(&mut out, name);
    proof {
        assert(out@ =~= child_path(dir@, name@));
    }
    out
}

/// The paths of the directories among the first `n` entries of a listing
/// of `dir`, in listing order.
pub open spec fn dir_children(dir: Seq<char>, entries: Seq<DirEntry>, n: int) -> Seq<Seq<char>>
    decreases n,
{
    if n <= 0 {
        Seq::empty()
    } else {
        let r = dir_children(dir, entries, n - 1);
        if entries[n - 1].is_dir {
            r.push(child_path(dir, entries[n - 1].name@))
        } else {
            r
        }
    }
}

/// The paths among `paths` that neither `seen` nor an earlier path holds,
/// in order.
pub open spec fn unseen(seen: Seq<Seq<char>>, paths: Seq<Seq<char>>) -> Seq<Seq<char>>
    decreases paths.len(),
{
    if paths.len() == 0 {
        Seq::empty()
    } else {
        let r = unseen(seen, paths.drop_last());
        if (seen + r).contains(paths.last()) {
            r
        } else {
            r.push(paths.last())
        }
    }
}

/// Adding the unseen paths of a listing to a list of distinct paths keeps
/// them distinct: a walk counts each directory once.
pub proof fn lemma_unseen_distinct(seen: Seq<Seq<char>>, paths: Seq<Seq<char>>)
    requires
        seen.no_duplicates(),
    ensures
        (seen + unseen(seen, paths)).no_duplicates(),
    decreases paths.len(),
{
    if paths.len() > 0 {
        lemma_unseen_distinct(seen, paths.drop_last());
        let r = unseen(seen, paths.drop_last());
        if !(seen + r).contains(paths.last()) {
            assert(seen + r.push(paths.last()) =~= (seen + r).push(paths.last()));
            let t = (seen + r).push(paths.last());
            assert forall|i: int, j: int| 0 <= i < t.len() && 0 <= j < t.len() && i != j implies t[i] != t[j] by {
                if i == t.len() - 1 {
                    assert((seen + r)[j] == t[j]);
                } else if j == t.len() - 1 {
                    assert((seen + r)[i] == t[i]);
                } else {
                    assert((seen + r)[i] == t[i]);
                    assert((seen + r)[j] == t[j]);
                }
            }
        }
    }
}

/// Whether the list holds a string with the characters of `s`.
fn holds(v: &Vec<String>, s: &String) -> (r: bool)
    ensures
        r == string_views(v@).contains(s@),
{
    let mut i: usize = 0;
    while i < v.len()
        invariant
            0 <= i <= v@.len(),
            forall|k: int| 0 <= k < i ==> v@[k]@ != s@,
        decreases v.len() - i,
    {
        if string_eq(&v[i], s) {
            proof {
                assert(string_views(v@)[i as int] == s@);
            }
            return true;
        }
        i = i + 1;
    }
    proof {
        assert forall|k: int| 0 <= k < string_views(v@).len() implies string_views(v@)[k] != s@ by {
            assert(string_views(v@)[k] == v@[k]@);
        }
    }
    false
}

/// Counting the cgroups: each directory below the root is counted once,
/// however often it is reached.
pub struct CgroupCount {
    stack: Vec<String>,
    seen: Vec<String>,
}

impl CgroupCount {
    /// The directories still to be read, the last one next.
    pub closed spec fn pending(&self) -> Seq<Seq<char>> {
        string_views(self.stack@)
    }

    /// The directories found so far, in the order they were found.
    pub closed spec fn found(&self) -> Seq<Seq<char>> {
        string_views(self.seen@)
    }

    /// A walk that starts at the root.
    pub fn new() -> (r: CgroupCount)
        ensures
            r.pending() == seq![Seq::<char>::empty()],
            r.found() == Seq::<Seq<char>>::empty(),
    {
        let mut stack: Vec<String> = Vec::new();
        stack.push(String::new());
        let r = CgroupCount { stack, seen: Vec::new() };
        proof {
            assert(r.pending() =~= seq![Seq::<char>::empty()]);
            assert(r.found() =~= Seq::<Seq<char>>::empty());
        }
        r
    }

    /// The directory to read next, taken off the stack; none when the walk
    /// is over.
    pub fn next(&mut self) -> (r: Option<String>)
        ensures
            old(self).pending().len() == 0 ==> r is None && final(self).pending() == old(self).pending(),
            old(self).pending().len() > 0 ==> (r matches Some(d) && d@ == old(self).pending().last()
                && final(self).pending() == old(self).pending().drop_last()),
            final(self).found() == old(self).found(),
    {
        let r = self.stack.pop();
        proof {
            assert(self.pending() =~= old(self).pending().take(self.stack@.len() as int));
        }
        r
    }

    /// Takes in the listing of the directory `dir`: a failure ends the walk
    /// with its status; otherwise each directory in it that was not found
    /// before is found and will be read.
    pub fn visit(&mut self, dir: &str, listing: Listing) -> (r: Option<Field<usize>>)
        ensures
            match listing {
                Listing::Failed(kind) => r == Some(walk_failure::<usize>(kind)),
                Listing::Entries(entries) => {
                    let fresh = unseen(
                        old(self).found(),
                        dir_children(dir@, entries@, entries@.len() as int),
                    );
                    &&& r is None
                    &&& final(self).found() == old(self).found() + fresh
                    &&& final(self).pending() == old(self).pending() + fresh
                },
            },
    {
        match listing {
            Listing::Failed(kind) => Some(walk_error(kind)),
            Listing::Entries(entries) => {
                let ghost seen0 = string_views(self.seen@);
                let ghost stack0 = string_views(self.stack@);
                let mut i: usize = 0;
                while i < entries.len()
                    invariant
                        0 <= i <= entries@.len(),
                        string_views(self.seen@) == seen0 + unseen(seen0, dir_children(dir@, entries@, i as int)),
                        string_views(self.stack@) == stack0 + unseen(seen0, dir_children(dir@, entries@, i as int)),
                    decreases entries.len() - i,
                {
                    let ghost kids = dir_children(dir@, entries@, i as int);
                    let ghost next = dir_children(dir@, entries@, i + 1);
                    if entries[i].is_dir {
                        let path = child_of(dir, entries[i].name.as_str());
                        proof {
                            assert(next == kids.push(path@));
                            assert(next.drop_last() =~= kids);
                        }
                        if !holds(&self.seen, &path) {
                            let copy = path.clone();
                            let ghost s_before = string_views(self.seen@);
                            let ghost t_before = string_views(self.stack@);
                            self.seen.push(path);
                            self.stack.push(copy);
                            proof {
                                assert(string_views(self.seen@) =~= s_before.push(path@));
                                assert(string_views(self.stack@) =~= t_before.push(path@));
                                assert(seen0 + unseen(seen0, kids) =~= s_before);
                                assert(unseen(seen0, next) == unseen(seen0, kids).push(path@));
                                assert(seen0 + unseen(seen0, next) =~= s_before.push(path@));
                                assert(stack0 + unseen(seen0, next) =~= t_before.push(path@));
                            }
                        } else {
                            proof {
                                assert(seen0 + unseen(seen0, kids) =~= string_views(self.seen@));
                                assert(unseen(seen0, next) == unseen(seen0, kids));
                            }
                        }
                    } else {
                        proof {
                            assert(next == kids);
                        }
                    }
                    i = i + 1;
                }
                None
            },
        }
    }

    /// The number of cgroups found.
    pub fn count(&self) -> (r: Field<usize>)
        ensures
            r == Field::Value(self.found().len() as usize),
    {
        Field::Value(self.seen.len())
    }
}

/// Listing the cgroups: every directory reached below the root, by its path
/// relative to the root.
pub struct CgroupList {
    stack: Vec<String>,
    values: Vec<String>,
}

impl CgroupList {
    /// The directories still to be read, the last one next.
    pub closed spec fn pending(&self) -> Seq<Seq<char>> {
        string_views(self.stack@)
    }

    /// The directories listed so far, in the order they were reached.
    pub closed spec fn listed(&self) -> Seq<Seq<char>> {
        string_views(self.values@)
    }

    /// A walk that starts at the root.
    pub fn new() -> (r: CgroupList)
        ensures
            r.pending() == seq![Seq::<char>::empty()],
            r.listed() == Seq::<Seq<char>>::empty(),
    {
        let mut stack: Vec<String> = Vec::new();
        stack.push(String::new());
        let r = CgroupList { stack, values: Vec::new() };
        proof {
            assert(r.pending() =~= seq![Seq::<char>::empty()]);
            assert(r.listed() =~= Seq::<Seq<char>>::empty());
        }
        r
    }

    /// The directory to read next, taken off the stack; none when the walk
    /// is over.
    pub fn next(&mut self) -> (r: Option<String>)
        ensures
            old(self).pending().len() == 0 ==> r is None && final(self).pending() == old(self).pending(),
            old(self).pending().len() > 0 ==> (r matches Some(d) && d@ == old(self).pending().last()
                && final(self).pending() == old(self).pending().drop_last()),
            final(self).listed() == old(self).listed(),
    {
        let r = self.stack.pop();
        proof {
            assert(self.pending() =~= old(self).pending().take(self.stack@.len() as int));
        }
        r
    }

    /// Takes in the listing of the directory `dir`: a failure ends the walk
    /// with its status; otherwise each directory in it is listed and will be
    /// read.
    pub fn visit(&mut self, dir: &str, listing: Listing) -> (r: Option<Field<Vec<String>>>)
        ensures
            match listing {
                Listing::Failed(kind) => r == Some(walk_failure::<Vec<String>>(kind)),
                Listing::Entries(entries) => {
                    let kids = dir_children(dir@, entries@, entries@.len() as int);
                    &&& r is None
                    &&& final(self).listed() == old(self).listed() + kids
                    &&& final(self).pending() == old(self).pending() + kids
                },
            },
    {
        match listing {
            Listing::Failed(kind) => Some(walk_error(kind)),
            Listing::Entries(entries) => {
                let ghost values0 = string_views(self.values@);
                let ghost stack0 = string_views(self.stack@);
                let mut i: usize = 0;
                while i < entries.len()
                    invariant
                        0 <= i <= entries@.len(),
                        string_views(self.values@) == values0 + dir_children(dir@, entries@, i as int),
                        string_views(self.stack@) == stack0 + dir_children(dir@, entries@, i as int),
                    decreases entries.len() - i,
                {
                    let ghost kids = dir_children(dir@, entries@, i as int);
                    if entries[i].is_dir {
                        let path = child_of(dir, entries[i].name.as_str());
                        let copy = path.clone();
                        let ghost v_before = string_views(self.values@);
                        let ghost t_before = string_views(self.stack@);
                        self.values.push(path);
                        self.stack.push(copy);
                        proof {
                            assert(string_views(self.values@) =~= v_before.push(path@));
                            assert(string_views(self.stack@) =~= t_before.push(path@));
                            assert(values0 + dir_children(dir@, entries@, i + 1) =~= v_before.push(path@));
                            assert(stack0 + dir_children(dir@, entries@, i + 1) =~= t_before.push(path@));
                        }
                    }
                    i = i + 1;
                }
                None
            },
        }
    }

    /// The listed cgroups, sorted by their paths' bytes.
    pub fn finish(self) -> (r: Field<Vec<String>>)
        ensures
            r matches Field::Value(v) && string_views(v@).to_multiset() == self.listed().to_multiset()
                && ascending(v@),
    {
        Field::Value(sort_strings(self.values))
    }
}

} // verus!
