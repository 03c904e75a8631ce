//! The subtree that a toggle walks, stated against a model of the file
//! system: a completed walk holds exactly the root and its transitive
//! children, so a toggle flips exactly those, and a second toggle undoes
//! the first.

use crate::listing::{lemma_listing_distinct, lemma_listing_members, listed, shown_once, Entry};
use crate::selection::{
    distinct_paths, has_path, index_of, lemma_toggle_flips_exactly_the_walk,
    lemma_toggle_twice_restores, record_of, toggled, Record,
};
use crate::toggle::{advanced, advanced_with, entry_paths, opened, visit_of, Probe, ToggleJob};
use vstd::prelude::*;

verus! {

/// In the file system `fs`, which gives the answer for each path, `child`
/// is shown in the directory `dir`.
pub open spec fn child_of(fs: Map<Seq<u8>, Probe>, dir: Seq<u8>, child: Seq<u8>) -> bool {
    fs.dom().contains(dir) && match fs[dir] {
        Probe::Directory(entries) => exists|i: int|
            0 <= i < entries@.len() && listed(#[trigger] entries@[i]) && entries@[i].path@ == child,
        _ => false,
    }
}

/// A chain of directories from `root` down: it starts at `root`, and each
/// further path is shown in the directory before it.
pub open spec fn is_chain(fs: Map<Seq<u8>, Probe>, root: Seq<u8>, chain: Seq<Seq<u8>>) -> bool {
    &&& chain.len() > 0
    &&& chain[0] == root
    &&& forall|i: int| 0 <= i < chain.len() - 1 ==> child_of(fs, #[trigger] chain[i], chain[i + 1])
}

/// `p` is `root` or one of its transitive children: a chain leads from
/// `root` to `p`.
pub open spec fn in_subtree(fs: Map<Seq<u8>, Probe>, root: Seq<u8>, p: Seq<u8>) -> bool {
    exists|chain: Seq<Seq<u8>>| #[trigger] is_chain(fs, root, chain) && chain.last() == p
}

/// The job has visited `p` or has it waiting.
pub open spec fn seen(job: ToggleJob, p: Seq<u8>) -> bool {
    has_path(job.walk@, p) || job.pending_paths().contains(p)
}

/// The job is a walk in progress of the subtree at `root` in `fs`: it has
/// seen the root, it has seen the children of every path it visited, it has
/// seen nothing outside the subtree, and it recorded of each visited path
/// what `fs` answers.
#[verifier::opaque]
pub open spec fn follows(job: ToggleJob, fs: Map<Seq<u8>, Probe>, root: Seq<u8>) -> bool {
    &&& seen(job, root)
    &&& forall|p: Seq<u8>| #[trigger] seen(job, p) ==> in_subtree(fs, root, p)
    &&& forall|i: int, c: Seq<u8>|
        0 <= i < job.walk@.len() && #[trigger] child_of(fs, job.walk@[i].path@, c) ==> seen(job, c)
    &&& forall|i: int|
        0 <= i < job.walk@.len() ==> fs.dom().contains((#[trigger] job.walk@[i]).path@)
            && job.walk@[i] == visit_of(job.walk@[i].path, fs[job.walk@[i].path@])
}

/// A job that has visited nothing and waits for `root` alone is a walk in
/// progress of the subtree at `root`.
pub proof fn lemma_start_follows(job: ToggleJob, fs: Map<Seq<u8>, Probe>, root: Vec<u8>)
    requires
        job.pending@ == seq![root],
        job.walk@.len() == 0,
    ensures
        follows(job, fs, root@),
{
    reveal(follows);
    assert(job.pending_paths()[0] == root@);
    assert(is_chain(fs, root@, seq![root@]));
    assert(seq![root@].last() == root@);
    assert forall|p: Seq<u8>| #[trigger] seen(job, p) implies in_subtree(fs, root@, p) by {
        let k = choose|k: int| 0 <= k < job.pending_paths().len() && job.pending_paths()[k] == p;
        assert(p == root@);
    }
}

/// A visit that is answered by `fs` keeps the job a walk in progress of the
/// same subtree.
pub proof fn lemma_advance_follows(
    before: ToggleJob,
    probe: Probe,
    after: ToggleJob,
    fs: Map<Seq<u8>, Probe>,
    root: Seq<u8>,
)
    requires
        follows(before, fs, root),
        advanced(before, probe, after),
        fs.dom().contains(before.pending@[0]@),
        fs[before.pending@[0]@] == probe,
    ensures
        follows(after, fs, root),
{
    reveal(follows);
    let children = choose|children: Seq<Entry>| advanced_with(before, probe, after, children);
    let p = before.pending@[0]@;
    let visit = visit_of(before.pending@[0], probe);
    let n0 = before.walk@.len() as int;
    let kids = entry_paths(children);
    assert(visit.path@ == p);
    assert(after.walk@[n0] == visit);
    assert(before.pending_paths()[0] == p);
    assert(seen(before, p));
    assert forall|x: Seq<u8>| seen(before, x) implies seen(after, x) by {
        if has_path(before.walk@, x) {
            let i = index_of(before.walk@, x);
            assert(after.walk@[i] == before.walk@[i]);
        } else {
            let k = choose|k: int|
                0 <= k < before.pending_paths().len() && before.pending_paths()[k] == x;
            if k == 0 {
                assert(after.walk@[n0].path@ == x);
            } else {
                assert(after.pending_paths()[kids.len() + k - 1] == x);
            }
        }
    }
    assert forall|c: Seq<u8>| child_of(fs, p, c) <==> kids.contains(c) by {
        lemma_opened_children(fs, p, children, c);
    }
    assert forall|x: Seq<u8>| #[trigger] seen(after, x) implies in_subtree(fs, root, x) by {
        if has_path(after.walk@, x) {
            let i = index_of(after.walk@, x);
            if i < n0 {
                assert(after.walk@[i] == before.walk@[i]);
                assert(seen(before, x));
            } else {
                assert(x == p);
            }
        } else {
            let k = choose|k: int|
                0 <= k < after.pending_paths().len() && after.pending_paths()[k] == x;
            if k < kids.len() {
                assert(kids[k] == x);
                assert(kids.contains(x));
                assert(child_of(fs, p, x));
                let chain = choose|chain: Seq<Seq<u8>>| #[trigger]
                    is_chain(fs, root, chain) && chain.last() == p;
                let longer = chain.push(x);
                assert forall|i: int| 0 <= i < longer.len() - 1 implies child_of(
                    fs,
                    #[trigger] longer[i],
                    longer[i + 1],
                ) by {
                    if i < chain.len() - 1 {
                        assert(child_of(fs, chain[i], chain[i + 1]));
                    }
                }
                assert(is_chain(fs, root, longer));
                assert(longer.last() == x);
            } else {
                assert(before.pending_paths()[k - kids.len() + 1] == x);
                assert(seen(before, x));
            }
        }
    }
    assert forall|i: int, c: Seq<u8>|
        0 <= i < after.walk@.len() && #[trigger] child_of(fs, after.walk@[i].path@, c) implies seen(
        after,
        c,
    ) by {
        if i < n0 {
            assert(after.walk@[i] == before.walk@[i]);
            assert(seen(before, c));
        } else {
            assert(kids.contains(c));
            let j = choose|j: int| 0 <= j < kids.len() && kids[j] == c;
            assert(after.pending_paths()[j] == c);
        }
    }
    assert forall|i: int| 0 <= i < after.walk@.len() implies fs.dom().contains(
        (#[trigger] after.walk@[i]).path@,
    ) && after.walk@[i] == visit_of(after.walk@[i].path, fs[after.walk@[i].path@]) by {
        if i < n0 {
            assert(after.walk@[i] == before.walk@[i]);
        }
    }
    assert(seen(before, root));
}

/// The end of every chain from the root of a completed walk is on the walk.
pub proof fn lemma_done_reaches(
    job: ToggleJob,
    fs: Map<Seq<u8>, Probe>,
    root: Seq<u8>,
    chain: Seq<Seq<u8>>,
)
    requires
        follows(job, fs, root),
        job.pending@.len() == 0,
        is_chain(fs, root, chain),
    ensures
        has_path(job.walk@, chain.last()),
    decreases chain.len(),
{
    reveal(follows);
    if chain.len() == 1 {
        assert(seen(job, root));
    } else {
        let front = chain.drop_last();
        assert forall|i: int| 0 <= i < front.len() - 1 implies child_of(
            fs,
            #[trigger] front[i],
            front[i + 1],
        ) by {
            assert(child_of(fs, chain[i], chain[i + 1]));
        }
        lemma_done_reaches(job, fs, root, front);
        let q = front.last();
        let p = chain.last();
        assert(q == chain[chain.len() - 2]);
        assert(child_of(fs, chain[chain.len() - 2], chain[chain.len() - 2 + 1]));
        let i = index_of(job.walk@, q);
        assert(child_of(fs, job.walk@[i].path@, p));
        assert(seen(job, p));
    }
}

/// A completed walk holds exactly the root and its transitive children.
pub proof fn lemma_done_walk_is_subtree(job: ToggleJob, fs: Map<Seq<u8>, Probe>, root: Seq<u8>)
    requires
        follows(job, fs, root),
        job.pending@.len() == 0,
    ensures
        forall|p: Seq<u8>|
            #![trigger has_path(job.walk@, p)]
            #![trigger in_subtree(fs, root, p)]
            has_path(job.walk@, p) <==> in_subtree(fs, root, p),
{
    assert forall|p: Seq<u8>| has_path(job.walk@, p) <==> in_subtree(fs, root, p) by {
        if has_path(job.walk@, p) {
            reveal(follows);
            assert(seen(job, p));
        }
        if in_subtree(fs, root, p) {
            let chain = choose|chain: Seq<Seq<u8>>| #[trigger]
                is_chain(fs, root, chain) && chain.last() == p;
            lemma_done_reaches(job, fs, root, chain);
        }
    }
}

/// What `probe` shows, it shows once.
pub open spec fn shows_once(probe: Probe) -> bool {
    match probe {
        Probe::Directory(entries) => shown_once(entries@),
        _ => true,
    }
}

/// Below `root` the file system is a tree: the root is shown in no
/// directory, no path is shown in two directories, and no directory shows a
/// path twice.
pub open spec fn tree_like(fs: Map<Seq<u8>, Probe>, root: Seq<u8>) -> bool {
    &&& forall|d: Seq<u8>| !#[trigger] child_of(fs, d, root)
    &&& forall|d1: Seq<u8>, d2: Seq<u8>, c: Seq<u8>|
        #[trigger] child_of(fs, d1, c) && #[trigger] child_of(fs, d2, c) ==> d1 == d2
    &&& forall|d: Seq<u8>| fs.dom().contains(d) ==> shows_once(#[trigger] fs[d])
}

/// Some visited directory shows `x`.
pub open spec fn parent_visited(job: ToggleJob, fs: Map<Seq<u8>, Probe>, x: Seq<u8>) -> bool {
    exists|i: int| 0 <= i < job.walk@.len() && child_of(fs, (#[trigger] job.walk@[i]).path@, x)
}

/// The job has met no path twice: the paths visited and the paths waiting
/// are all different, and each of them but the root is shown in a
/// directory that was visited.
#[verifier::opaque]
pub open spec fn orderly(job: ToggleJob, fs: Map<Seq<u8>, Probe>, root: Seq<u8>) -> bool {
    &&& distinct_paths(job.walk@)
    &&& forall|a: int, b: int|
        0 <= a < b < job.pending_paths().len() ==> #[trigger] job.pending_paths()[a]
            != #[trigger] job.pending_paths()[b]
    &&& forall|i: int, k: int|
        0 <= i < job.walk@.len() && 0 <= k < job.pending_paths().len() ==> (
        #[trigger] job.walk@[i]).path@ != #[trigger] job.pending_paths()[k]
    &&& forall|x: Seq<u8>| #[trigger] seen(job, x) && x != root ==> parent_visited(job, fs, x)
}

/// The children that a visit puts on the work list are those that `fs`
/// shows in the visited directory.
pub proof fn lemma_opened_children(
    fs: Map<Seq<u8>, Probe>,
    p: Seq<u8>,
    children: Seq<Entry>,
    c: Seq<u8>,
)
    requires
        fs.dom().contains(p),
        opened(fs[p], children),
    ensures
        child_of(fs, p, c) <==> entry_paths(children).contains(c),
{
    let kids = entry_paths(children);
    match fs[p] {
        Probe::Directory(entries) => {
            lemma_listing_members(children, entries@, c);
            if kids.contains(c) {
                let j = choose|j: int| 0 <= j < kids.len() && kids[j] == c;
                assert(children[j].path@ == c);
            }
            if child_of(fs, p, c) {
                let j = choose|j: int| 0 <= j < children.len() && (#[trigger] children[j]).path@ == c;
                assert(kids[j] == c);
            }
        },
        _ => {
            assert(kids.len() == 0);
        },
    }
}

/// A job that has visited nothing and waits for `root` alone has met no
/// path twice.
pub proof fn lemma_start_orderly(job: ToggleJob, fs: Map<Seq<u8>, Probe>, root: Vec<u8>)
    requires
        job.pending@ == seq![root],
        job.walk@.len() == 0,
    ensures
        orderly(job, fs, root@),
{
    reveal(orderly);
    assert(job.pending_paths().len() == 1);
    assert forall|x: Seq<u8>| #[trigger] seen(job, x) && x != root@ implies parent_visited(
        job,
        fs,
        x,
    ) by {
        let k = choose|k: int| 0 <= k < job.pending_paths().len() && job.pending_paths()[k] == x;
        assert(job.pending_paths()[0] == root@);
    }
}

/// In a tree, a visit that is answered by `fs` meets no path for the
/// second time.
pub proof fn lemma_advance_orderly(
    before: ToggleJob,
    probe: Probe,
    after: ToggleJob,
    fs: Map<Seq<u8>, Probe>,
    root: Seq<u8>,
)
    requires
        tree_like(fs, root),
        orderly(before, fs, root),
        advanced(before, probe, after),
        fs.dom().contains(before.pending@[0]@),
        fs[before.pending@[0]@] == probe,
    ensures
        orderly(after, fs, root),
{
    reveal(orderly);
    let children = choose|children: Seq<Entry>| advanced_with(before, probe, after, children);
    let p = before.pending@[0]@;
    let n0 = before.walk@.len() as int;
    let kids = entry_paths(children);
    let old_wait = before.pending_paths();
    let new_wait = after.pending_paths();
    assert(after.walk@[n0].path@ == p);
    assert(old_wait[0] == p);
    assert(seen(before, p));
    assert forall|c: Seq<u8>| #[trigger] kids.contains(c) implies child_of(fs, p, c) && !seen(
        before,
        c,
    ) by {
        lemma_opened_children(fs, p, children, c);
        if seen(before, c) {
            assert(child_of(fs, p, c));
            assert(c != root);
            assert(parent_visited(before, fs, c));
            let i = choose|i: int|
                0 <= i < before.walk@.len() && child_of(fs, (#[trigger] before.walk@[i]).path@, c);
            assert(before.walk@[i].path@ == p);
            assert(before.walk@[i].path@ != old_wait[0]);
        }
    }
    assert forall|a: int, b: int| 0 <= a < b < after.walk@.len() implies (
    #[trigger] after.walk@[a]).path@ != (#[trigger] after.walk@[b]).path@ by {
        assert(after.walk@[a] == before.walk@[a]);
        if b < n0 {
            assert(after.walk@[b] == before.walk@[b]);
        } else {
            assert(before.walk@[a].path@ != old_wait[0]);
        }
    }
    assert forall|a: int, b: int| 0 <= a < b < new_wait.len() implies #[trigger] new_wait[a]
        != #[trigger] new_wait[b] by {
        if b < kids.len() {
            assert(shows_once(fs[p]));
            match probe {
                Probe::Directory(entries) => {
                    lemma_listing_distinct(children, entries@, a, b);
                },
                _ => {},
            }
        } else if a < kids.len() {
            assert(kids.contains(kids[a]));
            assert(new_wait[b] == old_wait[b - kids.len() + 1]);
            assert(old_wait.contains(old_wait[b - kids.len() + 1]));
        } else {
            assert(new_wait[a] == old_wait[a - kids.len() + 1]);
            assert(new_wait[b] == old_wait[b - kids.len() + 1]);
        }
    }
    assert forall|i: int, k: int|
        0 <= i < after.walk@.len() && 0 <= k < new_wait.len() implies (
    #[trigger] after.walk@[i]).path@ != #[trigger] new_wait[k] by {
        if k < kids.len() {
            assert(kids.contains(kids[k]));
            if i < n0 {
                assert(after.walk@[i] == before.walk@[i]);
                assert(has_path(before.walk@, before.walk@[i].path@));
            }
        } else {
            assert(new_wait[k] == old_wait[k - kids.len() + 1]);
            if i < n0 {
                assert(after.walk@[i] == before.walk@[i]);
            }
        }
    }
    assert forall|x: Seq<u8>| #[trigger] seen(after, x) && x != root implies parent_visited(
        after,
        fs,
        x,
    ) by {
        let was_seen = if has_path(after.walk@, x) {
            let i = index_of(after.walk@, x);
            if i < n0 {
                assert(after.walk@[i] == before.walk@[i]);
                assert(has_path(before.walk@, x));
            }
            true
        } else {
            let k = choose|k: int| 0 <= k < new_wait.len() && new_wait[k] == x;
            if k < kids.len() {
                assert(kids.contains(x));
                false
            } else {
                assert(old_wait[k - kids.len() + 1] == x);
                assert(old_wait.contains(x));
                true
            }
        };
        if was_seen {
            assert(seen(before, x));
            let i = choose|i: int|
                0 <= i < before.walk@.len() && child_of(fs, (#[trigger] before.walk@[i]).path@, x);
            assert(after.walk@[i] == before.walk@[i]);
        } else {
            assert(child_of(fs, after.walk@[n0].path@, x));
        }
    }
}

/// A walk on which no path was met twice repeats no path.
pub proof fn lemma_orderly_walk_is_distinct(job: ToggleJob, fs: Map<Seq<u8>, Probe>, root: Seq<u8>)
    requires
        orderly(job, fs, root),
    ensures
        distinct_paths(job.walk@),
{
    reveal(orderly);
}

/// The job is a walk in progress of the subtree at `root`, and has met
/// no path twice.
pub open spec fn walking(job: ToggleJob, fs: Map<Seq<u8>, Probe>, root: Seq<u8>) -> bool {
    follows(job, fs, root) && orderly(job, fs, root)
}

/// A new job is a walk in progress of the subtree at its root.
pub proof fn lemma_start_walking(job: ToggleJob, fs: Map<Seq<u8>, Probe>, root: Vec<u8>)
    requires
        job.pending@ == seq![root],
        job.walk@.len() == 0,
    ensures
        walking(job, fs, root@),
{
    lemma_start_follows(job, fs, root);
    lemma_start_orderly(job, fs, root);
}

/// In a tree, each visit that is answered by `fs` keeps the job a walk in
/// progress of the same subtree.
pub proof fn lemma_advance_walking(
    before: ToggleJob,
    probe: Probe,
    after: ToggleJob,
    fs: Map<Seq<u8>, Probe>,
    root: Seq<u8>,
)
    requires
        tree_like(fs, root),
        walking(before, fs, root),
        advanced(before, probe, after),
        fs.dom().contains(before.pending@[0]@),
        fs[before.pending@[0]@] == probe,
    ensures
        walking(after, fs, root),
{
    lemma_advance_follows(before, probe, after, fs, root);
    lemma_advance_orderly(before, probe, after, fs, root);
}

/// What the selection records of a path that answers `probe`.
pub open spec fn record_in(probe: Probe) -> Record {
    match probe {
        Probe::File(tag) => Record { is_file: true, tag },
        _ => Record { is_file: false, tag: None },
    }
}

/// Each entry of a walk in progress holds the record of what `fs` answers
/// for its path.
pub proof fn lemma_walk_records(job: ToggleJob, fs: Map<Seq<u8>, Probe>, root: Seq<u8>, i: int)
    requires
        follows(job, fs, root),
        0 <= i < job.walk@.len(),
    ensures
        record_of(job.walk@[i]) == record_in(fs[job.walk@[i].path@]),
{
    reveal(follows);
    assert(job.walk@[i] == visit_of(job.walk@[i].path, fs[job.walk@[i].path@]));
}

/// Toggling a completed walk of the subtree at `root` flips exactly the
/// root and its transitive children: afterwards a path is selected if and
/// only if either it was selected before or it belongs to the subtree, but
/// not both. A path outside the subtree keeps its record, and a path that
/// the toggle selects is recorded with what `fs` answers for it.
pub proof fn lemma_toggle_flips_exactly_the_subtree(
    m: Map<Seq<u8>, Record>,
    job: ToggleJob,
    fs: Map<Seq<u8>, Probe>,
    root: Seq<u8>,
)
    requires
        walking(job, fs, root),
        job.pending@.len() == 0,
    ensures
        forall|p: Seq<u8>| #[trigger]
            toggled(m, job.walk@).dom().contains(p) <==> (m.dom().contains(p) != in_subtree(
                fs,
                root,
                p,
            )),
        forall|p: Seq<u8>|
            m.dom().contains(p) && !in_subtree(fs, root, p) ==> #[trigger] toggled(m, job.walk@)[p]
                == m[p],
        forall|p: Seq<u8>|
            !m.dom().contains(p) && in_subtree(fs, root, p) ==> #[trigger] toggled(m, job.walk@)[p]
                == record_in(fs[p]),
{
    lemma_done_walk_is_subtree(job, fs, root);
    lemma_orderly_walk_is_distinct(job, fs, root);
    lemma_toggle_flips_exactly_the_walk(m, job.walk@);
    assert forall|p: Seq<u8>| !m.dom().contains(p) && in_subtree(fs, root, p) implies #[trigger] toggled(
        m,
        job.walk@,
    )[p] == record_in(fs[p]) by {
        assert(has_path(job.walk@, p));
        let i = index_of(job.walk@, p);
        lemma_walk_records(job, fs, root, i);
        assert(toggled(m, job.walk@)[job.walk@[i].path@] == record_of(job.walk@[i]));
    }
}

/// Toggling the same subtree twice restores the selection exactly, as long
/// as the file system did not change: both walks were answered by the same
/// `fs`, and what was selected of the subtree was recorded from `fs` too.
pub proof fn lemma_toggle_is_self_inverse(
    m: Map<Seq<u8>, Record>,
    first: ToggleJob,
    second: ToggleJob,
    fs: Map<Seq<u8>, Probe>,
    root: Seq<u8>,
)
    requires
        walking(first, fs, root),
        walking(second, fs, root),
        first.pending@.len() == 0,
        second.pending@.len() == 0,
        forall|p: Seq<u8>|
            #[trigger] m.dom().contains(p) && in_subtree(fs, root, p) ==> m[p] == record_in(fs[p]),
    ensures
        toggled(toggled(m, first.walk@), second.walk@) == m,
{
    lemma_done_walk_is_subtree(first, fs, root);
    lemma_done_walk_is_subtree(second, fs, root);
    lemma_orderly_walk_is_distinct(first, fs, root);
    lemma_orderly_walk_is_distinct(second, fs, root);
    let w1 = first.walk@;
    let w2 = second.walk@;
    assert forall|i: int, j: int|
        0 <= i < w1.len() && 0 <= j < w2.len() && (#[trigger] w1[i]).path@ == (
        #[trigger] w2[j]).path@ implies record_of(w1[i]) == record_of(w2[j]) by {
        lemma_walk_records(first, fs, root, i);
        lemma_walk_records(second, fs, root, j);
    }
    assert forall|j: int| 0 <= j < w2.len() && m.dom().contains((#[trigger] w2[j]).path@) implies m[w2[j].path@]
        == record_of(w2[j]) by {
        assert(has_path(w2, w2[j].path@));
        lemma_walk_records(second, fs, root, j);
    }
    assert forall|p: Seq<u8>| has_path(w1, p) <==> has_path(w2, p) by {
        assert(has_path(w1, p) <==> in_subtree(fs, root, p));
        assert(has_path(w2, p) <==> in_subtree(fs, root, p));
    }
    lemma_toggle_twice_restores(m, w1, w2);
}

} // verus!
