//! The recursive toggle as a work list: which path to look at next, and
//! what each answer adds to the walk of the subtree.

use crate::listing::{is_listing, list, Entry};
use crate::path::copy_path;
use crate::selection::Selected;
use crate::tags::Tag;
use vstd::prelude::*;

verus! {

/// What the file system and the tag codec say of one path.
#[derive(Debug)]
pub enum Probe {
    /// A regular file, with its tag if one could be parsed.
    File(Option<Tag>),
    /// A directory, with its unordered enumeration.
    Directory(Vec<Entry>),
    /// Anything else.
    Other,
}

/// The entry that a visit of `path` adds to the walk: a file with what was
/// parsed of it, anything else with no tag.
pub open spec fn visit_of(path: Vec<u8>, probe: Probe) -> Selected {
    match probe {
        Probe::File(tag) => Selected { path, is_file: true, tag },
        _ => Selected { path, is_file: false, tag: None },
    }
}

/// The paths of the given entries, in their order.
pub open spec fn entry_paths(entries: Seq<Entry>) -> Seq<Seq<u8>> {
    entries.map_values(|e: Entry| e.path@)
}

/// The paths that a visit puts in front of the work list: for a directory
/// its children as `children` lists them, for anything else none.
pub open spec fn opened(probe: Probe, children: Seq<Entry>) -> bool {
    match probe {
        Probe::Directory(entries) => is_listing(children, false, entries@),
        _ => children.len() == 0,
    }
}

/// A toggle in progress: the paths still to visit, next first, and the
/// walk so far. Nothing of it touches the selection until the walk is
/// complete and handed over, so a toggle that is given up leaves no trace.
#[derive(Debug)]
pub struct ToggleJob {
    pub pending: Vec<Vec<u8>>,
    pub walk: Vec<Selected>,
}

/// One visit with the given children: the first waiting path joins the
/// walk with what was found there, and its children take its place in
/// front of the paths that were waiting.
pub open spec fn advanced_with(
    before: ToggleJob,
    probe: Probe,
    after: ToggleJob,
    children: Seq<Entry>,
) -> bool {
    &&& before.pending@.len() > 0
    &&& after.walk@ == before.walk@.push(visit_of(before.pending@[0], probe))
    &&& opened(probe, children)
    &&& after.pending_paths() == entry_paths(children) + before.pending_paths().drop_first()
}

/// One visit: `after` is `before` advanced with `probe`.
pub open spec fn advanced(before: ToggleJob, probe: Probe, after: ToggleJob) -> bool {
    exists|children: Seq<Entry>| advanced_with(before, probe, after, children)
}

impl ToggleJob {
    /// The paths still to visit, next first.
    pub open spec fn pending_paths(&self) -> Seq<Seq<u8>> {
        self.pending@.map_values(|p: Vec<u8>| p@)
    }

    /// A toggle of the subtree at `path`: nothing visited yet.
    pub fn new(path: Vec<u8>) -> (job: Self)
        ensures
            job.pending@ == seq![path],
            job.walk@.len() == 0,
    {
        let mut pending: Vec<Vec<u8>> = Vec::new();
        pending.push(path);
        assert(pending@ =~= seq![path]);
        ToggleJob { pending, walk: Vec::new() }
    }

    /// Whether every path of the subtree has been visited.
    pub fn is_done(&self) -> (done: bool)
        ensures
            done == (self.pending@.len() == 0),
    {
        self.pending.len() == 0
    }

    /// The path to look at next, if any is left.
    pub fn next_path(&self) -> (next: Option<Vec<u8>>)
        ensures
            match next {
                Some(p) => self.pending@.len() > 0 && p@ == self.pending@[0]@,
                None => self.pending@.len() == 0,
            },
    {
        if self.pending.len() == 0 {
            None
        } else {
            Some(copy_path(&self.pending[0]))
        }
    }

    /// Visits the next path with what was found there: the path joins the
    /// walk, and if it is a directory its children are visited next, in the
    /// order in which the directory is listed, before the paths that were
    /// already waiting.
    pub fn advance(&mut self, probe: Probe)
        requires
            old(self).pending@.len() > 0,
        ensures
            advanced(*old(self), probe, *final(self)),
    {
        let ghost before = *self;
        let ghost waiting = self.pending_paths();
        let path = self.pending.remove(0);
        assert(self.pending_paths() =~= waiting.drop_first());
        match probe {
            Probe::File(tag) => {
                self.walk.push(Selected { path, is_file: true, tag });
                proof {
                    let children = Seq::<Entry>::empty();
                    assert(self.pending_paths() =~= entry_paths(children) + waiting.drop_first());
                    assert(advanced_with(before, probe, *self, children));
                }
            },
            Probe::Directory(entries) => {
                self.walk.push(Selected { path, is_file: false, tag: None });
                let children = list(false, entries);
                let mut front: Vec<Vec<u8>> = Vec::new();
                let mut i: usize = 0;
                while i < children.len()
                    invariant
                        i <= children@.len(),
                        front@.map_values(|p: Vec<u8>| p@) == entry_paths(children@.take(i as int)),
                    decreases children@.len() - i,
                {
                    let ghost before = front@.map_values(|p: Vec<u8>| p@);
                    let copy = copy_path(&children[i].path);
                    front.push(copy);
                    assert(front@.map_values(|p: Vec<u8>| p@) =~= before.push(copy@));
                    assert(entry_paths(children@.take(i + 1)) =~= entry_paths(
                        children@.take(i as int),
                    ).push(children@[i as int].path@));
                    i += 1;
                }
                assert(children@.take(children@.len() as int) =~= children@);
                let ghost front_paths = front@.map_values(|p: Vec<u8>| p@);
                front.append(&mut self.pending);
                self.pending = front;
                proof {
                    assert(self.pending_paths() =~= entry_paths(children@) + waiting.drop_first());
                    assert(advanced_with(before, probe, *self, children@));
                }
            },
            Probe::Other => {
                self.walk.push(Selected { path, is_file: false, tag: None });
                proof {
                    let children = Seq::<Entry>::empty();
                    assert(self.pending_paths() =~= entry_paths(children) + waiting.drop_first());
                    assert(advanced_with(before, probe, *self, children));
                }
            },
        }
    }
}

} // verus!
