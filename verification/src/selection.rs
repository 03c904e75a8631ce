//! The selection set: which paths are selected, and what was parsed of each.

use crate::path::same_path;
use crate::tags::Tag;
use vstd::prelude::*;

verus! {

/// One selected path. A file whose tag could not be parsed is recorded with
/// no tag, which is distinct from not being selected.
#[derive(Debug)]
pub struct Selected {
    pub path: Vec<u8>,
    pub is_file: bool,
    pub tag: Option<Tag>,
}

/// What the selection set records under a path.
pub struct Record {
    pub is_file: bool,
    pub tag: Option<Tag>,
}

/// The record that `e` puts under its path.
pub open spec fn record_of(e: Selected) -> Record {
    Record { is_file: e.is_file, tag: e.tag }
}

/// No path occurs twice.
pub open spec fn distinct_paths(sel: Seq<Selected>) -> bool {
    forall|i: int, j: int|
        0 <= i < j < sel.len() ==> (#[trigger] sel[i]).path@ != (#[trigger] sel[j]).path@
}

/// Some entry has the path `p`.
pub open spec fn has_path(sel: Seq<Selected>, p: Seq<u8>) -> bool {
    exists|i: int| 0 <= i < sel.len() && (#[trigger] sel[i]).path@ == p
}

/// The index of an entry with the path `p`.
pub open spec fn index_of(sel: Seq<Selected>, p: Seq<u8>) -> int {
    choose|i: int| 0 <= i < sel.len() && (#[trigger] sel[i]).path@ == p
}

/// The selection set as a map from canonical path to record. Presence as a
/// key means that the path is selected.
pub open spec fn selection_map(sel: Seq<Selected>) -> Map<Seq<u8>, Record> {
    Map::new(|p: Seq<u8>| has_path(sel, p), |p: Seq<u8>| record_of(sel[index_of(sel, p)]))
}

/// Toggling one entry: a selected path is deselected, any other is selected
/// with the entry's record.
pub open spec fn flip(m: Map<Seq<u8>, Record>, e: Selected) -> Map<Seq<u8>, Record> {
    if m.dom().contains(e.path@) {
        m.remove(e.path@)
    } else {
        m.insert(e.path@, record_of(e))
    }
}

/// Toggling every entry of a walk, first to last.
pub open spec fn toggled(m: Map<Seq<u8>, Record>, walk: Seq<Selected>) -> Map<Seq<u8>, Record>
    decreases walk.len(),
{
    if walk.len() == 0 {
        m
    } else {
        toggled(flip(m, walk.first()), walk.drop_first())
    }
}

/// In a selection without repeated paths, each entry is what the map holds
/// under its path.
pub proof fn lemma_map_at(sel: Seq<Selected>, i: int)
    requires
        distinct_paths(sel),
        0 <= i < sel.len(),
    ensures
        selection_map(sel).dom().contains(sel[i].path@),
        selection_map(sel)[sel[i].path@] == record_of(sel[i]),
{
    let p = sel[i].path@;
    assert(has_path(sel, p));
    let c = index_of(sel, p);
    assert(0 <= c < sel.len() && sel[c].path@ == p);
    if c < i {
        assert(sel[c].path@ != sel[i].path@);
    } else if i < c {
        assert(sel[i].path@ != sel[c].path@);
    }
}

/// A walk without repeated paths flips exactly its own paths: after the
/// toggle a path is selected if and only if either it was selected before
/// or the walk holds it, but not both. A path off the walk keeps its
/// record, and a path that the walk selects gets the record of its entry.
pub proof fn lemma_toggle_flips_exactly_the_walk(m: Map<Seq<u8>, Record>, walk: Seq<Selected>)
    requires
        distinct_paths(walk),
    ensures
        forall|p: Seq<u8>| #[trigger]
            toggled(m, walk).dom().contains(p) <==> (m.dom().contains(p) != has_path(walk, p)),
        forall|p: Seq<u8>|
            m.dom().contains(p) && !has_path(walk, p) ==> #[trigger] toggled(m, walk)[p] == m[p],
        forall|i: int|
            0 <= i < walk.len() && !m.dom().contains(walk[i].path@) ==> toggled(m, walk)[(
            #[trigger] walk[i]).path@] == record_of(walk[i]),
    decreases walk.len(),
{
    if walk.len() > 0 {
        let first = walk.first();
        let rest = walk.drop_first();
        let m1 = flip(m, first);
        assert forall|a: int, b: int| 0 <= a < b < rest.len() implies (#[trigger] rest[a]).path@ != (
        #[trigger] rest[b]).path@ by {
            assert(rest[a] == walk[a + 1]);
            assert(rest[b] == walk[b + 1]);
        }
        lemma_toggle_flips_exactly_the_walk(m1, rest);
        assert(!has_path(rest, first.path@)) by {
            if has_path(rest, first.path@) {
                let k = index_of(rest, first.path@);
                assert(rest[k] == walk[k + 1]);
                assert(walk[0].path@ != walk[k + 1].path@);
            }
        }
        assert forall|p: Seq<u8>| has_path(walk, p) <==> (p == first.path@ || has_path(rest, p)) by {
            if has_path(walk, p) {
                let k = index_of(walk, p);
                if k > 0 {
                    assert(rest[k - 1] == walk[k]);
                }
            }
            if has_path(rest, p) {
                let k = index_of(rest, p);
                assert(rest[k] == walk[k + 1]);
            }
            if p == first.path@ {
                assert(walk[0].path@ == p);
            }
        }
        assert forall|p: Seq<u8>| #[trigger]
            toggled(m, walk).dom().contains(p) <==> (m.dom().contains(p) != has_path(
                walk,
                p,
            )) by {
            assert(toggled(m1, rest).dom().contains(p) <==> (m1.dom().contains(p) != has_path(
                rest,
                p,
            )));
        }
        assert forall|p: Seq<u8>| m.dom().contains(p) && !has_path(walk, p) implies #[trigger] toggled(
            m,
            walk,
        )[p] == m[p] by {
            assert(m1.dom().contains(p) && !has_path(rest, p));
            assert(toggled(m1, rest)[p] == m1[p]);
        }
        assert forall|i: int| 0 <= i < walk.len() && !m.dom().contains(walk[i].path@) implies toggled(
            m,
            walk,
        )[(#[trigger] walk[i]).path@] == record_of(walk[i]) by {
            let p = walk[i].path@;
            if i == 0 {
                assert(m1.dom().contains(p) && !has_path(rest, p));
                assert(toggled(m1, rest)[p] == m1[p]);
            } else {
                assert(rest[i - 1] == walk[i]);
                assert(walk[0].path@ != walk[i].path@);
                assert(!m1.dom().contains(rest[i - 1].path@));
            }
        }
    }
}

/// Toggling two walks of the same paths, one after the other, restores the
/// selection exactly, as long as nothing changed in between: neither walk
/// repeats a path, both hold the same record of each path, and that is the
/// record that the selection had of a path that was selected.
pub proof fn lemma_toggle_twice_restores(
    m: Map<Seq<u8>, Record>,
    first: Seq<Selected>,
    second: Seq<Selected>,
)
    requires
        distinct_paths(first),
        distinct_paths(second),
        forall|p: Seq<u8>| has_path(first, p) <==> has_path(second, p),
        forall|i: int, j: int|
            0 <= i < first.len() && 0 <= j < second.len() && (#[trigger] first[i]).path@ == (
            #[trigger] second[j]).path@ ==> record_of(first[i]) == record_of(second[j]),
        forall|j: int|
            0 <= j < second.len() && m.dom().contains((#[trigger] second[j]).path@)
                ==> m[second[j].path@] == record_of(second[j]),
    ensures
        toggled(toggled(m, first), second) == m,
{
    let m1 = toggled(m, first);
    let m2 = toggled(m1, second);
    lemma_toggle_flips_exactly_the_walk(m, first);
    lemma_toggle_flips_exactly_the_walk(m1, second);
    assert forall|p: Seq<u8>| m.dom().contains(p) implies #[trigger] m2.dom().contains(p) && m2[p]
        == m[p] by {
        assert(m1.dom().contains(p) <==> (m.dom().contains(p) != has_path(first, p)));
        assert(m2.dom().contains(p) <==> (m1.dom().contains(p) != has_path(second, p)));
        if has_path(second, p) {
            let j = index_of(second, p);
            assert(!m1.dom().contains(second[j].path@));
            assert(m2[second[j].path@] == record_of(second[j]));
        } else {
            assert(m1[p] == m[p]);
            assert(m2[p] == m1[p]);
        }
    }
    assert forall|p: Seq<u8>| m2.dom().contains(p) implies #[trigger] m.dom().contains(p) by {
        assert(m1.dom().contains(p) <==> (m.dom().contains(p) != has_path(first, p)));
        assert(m2.dom().contains(p) <==> (m1.dom().contains(p) != has_path(second, p)));
    }
    assert(m2 =~= m);
}

/// The index of the first entry with the given path, if the path is
/// selected.
pub fn position_of(sel: &Vec<Selected>, path: &Vec<u8>) -> (pos: Option<usize>)
    ensures
        match pos {
            Some(i) => {
                &&& i < sel@.len()
                &&& sel@[i as int].path@ == path@
                &&& forall|j: int| 0 <= j < i ==> (#[trigger] sel@[j]).path@ != path@
            },
            None => !has_path(sel@, path@),
        },
{
    let mut i: usize = 0;
    while i < sel.len()
        invariant
            i <= sel@.len(),
            forall|j: int| 0 <= j < i ==> (#[trigger] sel@[j]).path@ != path@,
        decreases sel@.len() - i,
    {
        if same_path(&sel[i].path, path) {
            return Some(i);
        }
        i += 1;
    }
    None
}

/// Toggles one entry: if its path is selected it is removed, and the others
/// keep their order; else the entry is added at the end.
pub fn toggle_entry(sel: &mut Vec<Selected>, e: Selected)
    requires
        distinct_paths(old(sel)@),
    ensures
        distinct_paths(final(sel)@),
        selection_map(final(sel)@) == flip(selection_map(old(sel)@), e),
        has_path(old(sel)@, e.path@) ==> exists|i: int|
            0 <= i < old(sel)@.len() && old(sel)@[i].path@ == e.path@ && final(sel)@ == old(
                sel,
            )@.remove(i),
        !has_path(old(sel)@, e.path@) ==> final(sel)@ == old(sel)@.push(e),
{
    let ghost before = sel@;
    let ghost m = selection_map(before);
    match position_of(sel, &e.path) {
        Some(i) => {
            sel.remove(i);
            proof {
                let after = sel@;
                assert(after == before.remove(i as int));
                assert forall|a: int, b: int| 0 <= a < b < after.len() implies (
                #[trigger] after[a]).path@ != (#[trigger] after[b]).path@ by {
                    let a0 = if a < i { a } else { a + 1 };
                    let b0 = if b < i { b } else { b + 1 };
                    assert(after[a] == before[a0]);
                    assert(after[b] == before[b0]);
                }
                assert(has_path(before, e.path@));
                let target = m.remove(e.path@);
                assert forall|p: Seq<u8>| selection_map(after).dom().contains(p) implies (
                #[trigger] target.dom().contains(p)) && target[p] == selection_map(after)[p] by {
                    let c = index_of(after, p);
                    let c0 = if c < i { c } else { c + 1 };
                    assert(after[c] == before[c0]);
                    lemma_map_at(before, c0);
                    lemma_map_at(after, c);
                    if c0 < i {
                        assert(before[c0].path@ != before[i as int].path@);
                    } else {
                        assert(before[i as int].path@ != before[c0].path@);
                    }
                }
                assert forall|p: Seq<u8>| target.dom().contains(p) implies (#[trigger] selection_map(
                    after,
                ).dom().contains(p)) by {
                    let c0 = index_of(before, p);
                    assert(c0 != i);
                    let c = if c0 < i { c0 } else { c0 - 1 };
                    assert(after[c] == before[c0]);
                }
                assert(selection_map(after) =~= target);
            }
        },
        None => {
            sel.push(e);
            proof {
                let after = sel@;
                let k = before.len() as int;
                assert forall|a: int, b: int| 0 <= a < b < after.len() implies (
                #[trigger] after[a]).path@ != (#[trigger] after[b]).path@ by {
                    assert(after[a] == before[a]);
                    if b < k {
                        assert(after[b] == before[b]);
                    }
                }
                let target = m.insert(e.path@, record_of(e));
                assert forall|p: Seq<u8>| selection_map(after).dom().contains(p) implies (
                #[trigger] target.dom().contains(p)) && target[p] == selection_map(after)[p] by {
                    let c = index_of(after, p);
                    lemma_map_at(after, c);
                    if c < k {
                        assert(after[c] == before[c]);
                        lemma_map_at(before, c);
                    }
                }
                assert forall|p: Seq<u8>| target.dom().contains(p) implies (#[trigger] selection_map(
                    after,
                ).dom().contains(p)) by {
                    if p == e.path@ {
                        assert(after[k].path@ == p);
                    } else {
                        let c = index_of(before, p);
                        assert(after[c] == before[c]);
                    }
                }
                assert(selection_map(after) =~= target);
            }
        },
    }
}

/// Toggles every entry of `walk`, first to last.
pub fn toggle_walk(sel: &mut Vec<Selected>, walk: Vec<Selected>)
    requires
        distinct_paths(old(sel)@),
    ensures
        distinct_paths(final(sel)@),
        selection_map(final(sel)@) == toggled(selection_map(old(sel)@), walk@),
{
    let ghost goal = toggled(selection_map(sel@), walk@);
    let mut rest = walk;
    while rest.len() > 0
        invariant
            distinct_paths(sel@),
            toggled(selection_map(sel@), rest@) == goal,
        decreases rest@.len(),
    {
        let ghost rest_before = rest@;
        let e = rest.remove(0);
        assert(rest@ =~= rest_before.drop_first());
        toggle_entry(sel, e);
    }
}

/// The number of selected paths that are files. Selected directories do
/// not count.
pub open spec fn file_count(sel: Seq<Selected>) -> nat
    decreases sel.len(),
{
    if sel.len() == 0 {
        0
    } else {
        file_count(sel.drop_last()) + (if sel.last().is_file { 1nat } else { 0nat })
    }
}

/// Counts the selected files.
pub fn count_files(sel: &Vec<Selected>) -> (n: usize)
    ensures
        n == file_count(sel@),
{
    let mut n: usize = 0;
    let mut i: usize = 0;
    while i < sel.len()
        invariant
            i <= sel@.len(),
            n == file_count(sel@.take(i as int)),
            n <= i,
        decreases sel@.len() - i,
    {
        assert(sel@.take(i + 1).drop_last() =~= sel@.take(i as int));
        if sel[i].is_file {
            n += 1;
        }
        i += 1;
    }
    assert(sel@.take(sel@.len() as int) =~= sel@);
    n
}

} // verus!
