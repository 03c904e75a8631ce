//! The directory lister: from an unordered enumeration to the ordered
//! listing of one directory.

use crate::path::{
    has_audio_extension, is_audio_path, lemma_path_lt_asymmetric, lemma_path_lt_total,
    lemma_path_lt_transitive, path_less, path_lt,
};
use vstd::multiset::*;
use vstd::prelude::*;

verus! {

/// What a listed row stands for.
#[derive(Clone, Copy, PartialEq, Eq, Structural, Debug)]
pub enum Kind {
    /// The pseudo-entry that leads to the parent directory.
    Parent,
    Directory,
    File,
    /// Neither a directory nor a regular file, or of unreadable type.
    Other,
}

/// One enumerated or listed row: a canonical path and its kind.
#[derive(Clone, Debug)]
pub struct Entry {
    pub path: Vec<u8>,
    pub kind: Kind,
}

/// The path of the parent pseudo-entry: two dots.
pub open spec fn parent_path() -> Seq<u8> {
    seq![46u8, 46u8]
}

/// An enumerated entry is shown if it is a directory, or a file with the
/// recognized extension.
pub open spec fn listed(e: Entry) -> bool {
    e.kind == Kind::Directory || (e.kind == Kind::File && has_audio_extension(e.path@))
}

/// The paths of the shown entries of the given kind, with multiplicity.
pub open spec fn paths_of(entries: Seq<Entry>, kind: Kind) -> Multiset<Seq<u8>>
    decreases entries.len(),
{
    if entries.len() == 0 {
        Multiset::empty()
    } else {
        let rest = paths_of(entries.drop_last(), kind);
        let e = entries.last();
        if e.kind == kind && listed(e) {
            rest.insert(e.path@)
        } else {
            rest
        }
    }
}

/// No entry comes after one with a greater path.
pub open spec fn ascending(entries: Seq<Entry>) -> bool {
    forall|i: int, j: int|
        0 <= i < j < entries.len() ==> !path_lt(
            (#[trigger] entries[j]).path@,
            (#[trigger] entries[i]).path@,
        )
}

/// Every entry is a shown entry of the given kind.
pub open spec fn all_of_kind(entries: Seq<Entry>, kind: Kind) -> bool {
    forall|i: int|
        0 <= i < entries.len() ==> (#[trigger] entries[i]).kind == kind && listed(entries[i])
}

/// `out` is the listing of `entries` whose directories end before index `d`:
/// the parent pseudo-entry if there is a parent, then every directory in
/// ascending order, then every recognized file in ascending order.
pub open spec fn listing_split(out: Seq<Entry>, has_parent: bool, entries: Seq<Entry>, d: int) -> bool {
    let off: int = if has_parent { 1 } else { 0 };
    let dirs = out.subrange(off, d);
    let files = out.subrange(d, out.len() as int);
    &&& off <= d <= out.len()
    &&& has_parent ==> out[0].kind == Kind::Parent && out[0].path@ == parent_path()
    &&& all_of_kind(dirs, Kind::Directory)
    &&& all_of_kind(files, Kind::File)
    &&& ascending(dirs)
    &&& ascending(files)
    &&& paths_of(dirs, Kind::Directory) == paths_of(entries, Kind::Directory)
    &&& paths_of(files, Kind::File) == paths_of(entries, Kind::File)
}

/// `out` is the listing of a directory whose enumeration gave `entries`.
pub open spec fn is_listing(out: Seq<Entry>, has_parent: bool, entries: Seq<Entry>) -> bool {
    exists|d: int| listing_split(out, has_parent, entries, d)
}

/// Inserting an entry adds its path to the paths of its kind, if it is shown,
/// and changes nothing else.
pub proof fn lemma_paths_of_insert(s: Seq<Entry>, p: int, e: Entry, kind: Kind)
    requires
        0 <= p <= s.len(),
    ensures
        paths_of(s.insert(p, e), kind) == (if e.kind == kind && listed(e) {
            paths_of(s, kind).insert(e.path@)
        } else {
            paths_of(s, kind)
        }),
    decreases s.len(),
{
    let t = s.insert(p, e);
    if p == s.len() {
        assert(t.drop_last() =~= s);
        assert(t.last() == e);
    } else {
        assert(t.drop_last() =~= s.drop_last().insert(p, e));
        assert(t.last() == s.last());
        lemma_paths_of_insert(s.drop_last(), p, e, kind);
        assert(paths_of(t, kind) =~= (if e.kind == kind && listed(e) {
            paths_of(s, kind).insert(e.path@)
        } else {
            paths_of(s, kind)
        }));
    }
}

/// A path is among the paths of a kind exactly if some shown entry of that
/// kind has it.
pub proof fn lemma_paths_of_count(s: Seq<Entry>, kind: Kind, c: Seq<u8>)
    ensures
        paths_of(s, kind).count(c) > 0 <==> exists|i: int|
            0 <= i < s.len() && (#[trigger] s[i]).kind == kind && listed(s[i]) && s[i].path@ == c,
    decreases s.len(),
{
    if s.len() > 0 {
        let front = s.drop_last();
        lemma_paths_of_count(front, kind, c);
        if paths_of(s, kind).count(c) > 0 {
            if paths_of(front, kind).count(c) > 0 {
                let i = choose|i: int|
                    0 <= i < front.len() && (#[trigger] front[i]).kind == kind && listed(front[i])
                        && front[i].path@ == c;
                assert(s[i] == front[i]);
            } else {
                assert(s[s.len() - 1].kind == kind);
            }
        }
        if exists|i: int|
            0 <= i < s.len() && (#[trigger] s[i]).kind == kind && listed(s[i]) && s[i].path@ == c {
            let i = choose|i: int|
                0 <= i < s.len() && (#[trigger] s[i]).kind == kind && listed(s[i]) && s[i].path@
                    == c;
            if i < front.len() {
                assert(front[i] == s[i]);
            }
        }
    }
}

/// A listing without the parent pseudo-entry holds exactly the paths of the
/// enumerated entries that are shown.
pub proof fn lemma_listing_members(out: Seq<Entry>, entries: Seq<Entry>, c: Seq<u8>)
    requires
        is_listing(out, false, entries),
    ensures
        (exists|j: int| 0 <= j < out.len() && (#[trigger] out[j]).path@ == c) <==> (exists|i: int|
            0 <= i < entries.len() && listed(#[trigger] entries[i]) && entries[i].path@ == c),
{
    let d = choose|d: int| listing_split(out, false, entries, d);
    let dirs = out.subrange(0, d);
    let files = out.subrange(d, out.len() as int);
    lemma_paths_of_count(dirs, Kind::Directory, c);
    lemma_paths_of_count(files, Kind::File, c);
    lemma_paths_of_count(entries, Kind::Directory, c);
    lemma_paths_of_count(entries, Kind::File, c);
    if exists|j: int| 0 <= j < out.len() && (#[trigger] out[j]).path@ == c {
        let j = choose|j: int| 0 <= j < out.len() && (#[trigger] out[j]).path@ == c;
        if j < d {
            assert(dirs[j] == out[j]);
            assert(dirs[j].kind == Kind::Directory && listed(dirs[j]));
            let i = choose|i: int|
                0 <= i < entries.len() && (#[trigger] entries[i]).kind == Kind::Directory && listed(
                    entries[i],
                ) && entries[i].path@ == c;
            assert(listed(entries[i]) && entries[i].path@ == c);
        } else {
            assert(files[j - d] == out[j]);
            assert(files[j - d].kind == Kind::File && listed(files[j - d]));
            let i = choose|i: int|
                0 <= i < entries.len() && (#[trigger] entries[i]).kind == Kind::File && listed(
                    entries[i],
                ) && entries[i].path@ == c;
            assert(listed(entries[i]) && entries[i].path@ == c);
        }
    }
    if exists|i: int| 0 <= i < entries.len() && listed(#[trigger] entries[i]) && entries[i].path@ == c {
        let i = choose|i: int|
            0 <= i < entries.len() && listed(#[trigger] entries[i]) && entries[i].path@ == c;
        if entries[i].kind == Kind::Directory {
            let j = choose|j: int|
                0 <= j < dirs.len() && (#[trigger] dirs[j]).kind == Kind::Directory && listed(
                    dirs[j],
                ) && dirs[j].path@ == c;
            assert(out[j] == dirs[j]);
        } else {
            assert(entries[i].kind == Kind::File);
            let j = choose|j: int|
                0 <= j < files.len() && (#[trigger] files[j]).kind == Kind::File && listed(files[j])
                    && files[j].path@ == c;
            assert(out[j + d] == files[j]);
        }
    }
}

/// No two shown entries have the same path.
pub open spec fn shown_once(entries: Seq<Entry>) -> bool {
    forall|i: int, j: int|
        0 <= i < j < entries.len() && listed(#[trigger] entries[i]) && listed(#[trigger] entries[j])
            ==> entries[i].path@ != entries[j].path@
}

/// Where no two shown entries have the same path, no path counts twice.
pub proof fn lemma_paths_of_once(s: Seq<Entry>, kind: Kind, c: Seq<u8>)
    requires
        shown_once(s),
    ensures
        paths_of(s, kind).count(c) <= 1,
    decreases s.len(),
{
    if s.len() > 0 {
        let front = s.drop_last();
        assert forall|i: int, j: int|
            0 <= i < j < front.len() && listed(#[trigger] front[i]) && listed(
                #[trigger] front[j],
            ) implies front[i].path@ != front[j].path@ by {
            assert(front[i] == s[i]);
            assert(front[j] == s[j]);
        }
        lemma_paths_of_once(front, kind, c);
        lemma_paths_of_count(front, kind, c);
        let e = s.last();
        if e.kind == kind && listed(e) && e.path@ == c && paths_of(front, kind).count(c) > 0 {
            let i = choose|i: int|
                0 <= i < front.len() && (#[trigger] front[i]).kind == kind && listed(front[i])
                    && front[i].path@ == c;
            assert(front[i] == s[i]);
            assert(s[s.len() - 1] == e);
        }
    }
}

/// Two shown entries of one kind with the same path make it count twice.
pub proof fn lemma_paths_of_twice(s: Seq<Entry>, kind: Kind, i: int, j: int)
    requires
        0 <= i < j < s.len(),
        s[i].kind == kind,
        s[j].kind == kind,
        listed(s[i]),
        listed(s[j]),
        s[i].path@ == s[j].path@,
    ensures
        paths_of(s, kind).count(s[i].path@) >= 2,
    decreases s.len(),
{
    let front = s.drop_last();
    let c = s[i].path@;
    if j == s.len() - 1 {
        lemma_paths_of_count(front, kind, c);
        assert(front[i] == s[i]);
    } else {
        assert(front[i] == s[i]);
        assert(front[j] == s[j]);
        lemma_paths_of_twice(front, kind, i, j);
    }
}

/// The listing of entries of which no two shown ones have the same path
/// holds no path twice.
pub proof fn lemma_listing_distinct(out: Seq<Entry>, entries: Seq<Entry>, a: int, b: int)
    requires
        is_listing(out, false, entries),
        shown_once(entries),
        0 <= a < b < out.len(),
    ensures
        out[a].path@ != out[b].path@,
{
    let d = choose|d: int| listing_split(out, false, entries, d);
    let dirs = out.subrange(0, d);
    let files = out.subrange(d, out.len() as int);
    let c = out[a].path@;
    if out[b].path@ == c {
        if b < d {
            assert(dirs[a] == out[a] && dirs[b] == out[b]);
            lemma_paths_of_twice(dirs, Kind::Directory, a, b);
            lemma_paths_of_once(entries, Kind::Directory, c);
        } else if a >= d {
            assert(files[a - d] == out[a] && files[b - d] == out[b]);
            lemma_paths_of_twice(files, Kind::File, a - d, b - d);
            lemma_paths_of_once(entries, Kind::File, c);
        } else {
            assert(dirs[a] == out[a]);
            assert(files[b - d] == out[b]);
            lemma_paths_of_count(dirs, Kind::Directory, c);
            lemma_paths_of_count(files, Kind::File, c);
            lemma_paths_of_count(entries, Kind::Directory, c);
            lemma_paths_of_count(entries, Kind::File, c);
            let i = choose|i: int|
                0 <= i < entries.len() && (#[trigger] entries[i]).kind == Kind::Directory && listed(
                    entries[i],
                ) && entries[i].path@ == c;
            let j = choose|j: int|
                0 <= j < entries.len() && (#[trigger] entries[j]).kind == Kind::File && listed(
                    entries[j],
                ) && entries[j].path@ == c;
            if i < j {
                assert(entries[i].path@ != entries[j].path@);
            } else {
                assert(entries[j].path@ != entries[i].path@);
            }
        }
    }
}

/// The order of a listing, row by row: the parent pseudo-entry stands at
/// index 0 exactly if there is a parent, and nowhere else; behind it no
/// file comes before a directory; and of two rows of the same kind the
/// later one never has the smaller path.
pub proof fn lemma_listing_order(out: Seq<Entry>, has_parent: bool, entries: Seq<Entry>)
    requires
        is_listing(out, has_parent, entries),
    ensures
        has_parent <==> (out.len() > 0 && out[0].kind == Kind::Parent),
        forall|i: int| 1 <= i < out.len() ==> (#[trigger] out[i]).kind != Kind::Parent,
        forall|i: int, j: int|
            0 <= i < j < out.len() ==> !((#[trigger] out[i]).kind == Kind::File && (
            #[trigger] out[j]).kind == Kind::Directory),
        forall|i: int, j: int|
            0 <= i < j < out.len() && (#[trigger] out[i]).kind == (#[trigger] out[j]).kind
                ==> !path_lt(out[j].path@, out[i].path@),
{
    let off: int = if has_parent { 1 } else { 0 };
    let d = choose|d: int| listing_split(out, has_parent, entries, d);
    let dirs = out.subrange(off, d);
    let files = out.subrange(d, out.len() as int);
    assert forall|i: int| off <= i < out.len() implies ((#[trigger] out[i]).kind == (if i < d {
        Kind::Directory
    } else {
        Kind::File
    })) by {
        if i < d {
            assert(dirs[i - off] == out[i]);
        } else {
            assert(files[i - d] == out[i]);
        }
    }
    assert forall|i: int, j: int|
        0 <= i < j < out.len() && (#[trigger] out[i]).kind == (#[trigger] out[j]).kind implies !path_lt(
        out[j].path@,
        out[i].path@,
    ) by {
        if i >= off {
            if j < d {
                assert(dirs[i - off] == out[i]);
                assert(dirs[j - off] == out[j]);
            } else {
                assert(i >= d);
                assert(files[i - d] == out[i]);
                assert(files[j - d] == out[j]);
            }
        }
    }
}

/// Two ascending groups of one kind that hold the same paths hold them in
/// the same places.
pub proof fn lemma_ascending_is_determined(x: Seq<Entry>, y: Seq<Entry>, kind: Kind)
    requires
        ascending(x),
        ascending(y),
        all_of_kind(x, kind),
        all_of_kind(y, kind),
        paths_of(x, kind) == paths_of(y, kind),
    ensures
        x.len() == y.len(),
        forall|i: int| 0 <= i < x.len() ==> (#[trigger] x[i]).path@ == y[i].path@,
    decreases x.len(),
{
    if x.len() == 0 {
        if y.len() > 0 {
            assert(y[y.len() - 1].kind == kind && listed(y[y.len() - 1]));
            assert(paths_of(y, kind).count(y.last().path@) > 0);
        }
    } else {
        let px = x.last().path@;
        assert(x[x.len() - 1].kind == kind && listed(x[x.len() - 1]));
        assert(paths_of(x, kind).count(px) > 0);
        if y.len() == 0 {
            assert(paths_of(y, kind).count(px) == 0);
        }
        let py = y.last().path@;
        assert(y[y.len() - 1].kind == kind && listed(y[y.len() - 1]));
        assert(paths_of(y, kind).count(py) > 0);
        lemma_paths_of_count(x, kind, py);
        lemma_paths_of_count(y, kind, px);
        let i = choose|i: int|
            0 <= i < x.len() && (#[trigger] x[i]).kind == kind && listed(x[i]) && x[i].path@ == py;
        let j = choose|j: int|
            0 <= j < y.len() && (#[trigger] y[j]).kind == kind && listed(y[j]) && y[j].path@ == px;
        if px != py {
            assert(!path_lt(x[x.len() - 1].path@, x[i].path@));
            assert(!path_lt(y[y.len() - 1].path@, y[j].path@));
            lemma_path_lt_total(px, py);
        }
        let x0 = x.drop_last();
        let y0 = y.drop_last();
        assert forall|a: int, b: int| 0 <= a < b < x0.len() implies !path_lt(
            (#[trigger] x0[b]).path@,
            (#[trigger] x0[a]).path@,
        ) by {
            assert(x0[a] == x[a] && x0[b] == x[b]);
        }
        assert forall|a: int, b: int| 0 <= a < b < y0.len() implies !path_lt(
            (#[trigger] y0[b]).path@,
            (#[trigger] y0[a]).path@,
        ) by {
            assert(y0[a] == y[a] && y0[b] == y[b]);
        }
        assert forall|a: int| 0 <= a < x0.len() implies (#[trigger] x0[a]).kind == kind && listed(
            x0[a],
        ) by {
            assert(x0[a] == x[a]);
        }
        assert forall|a: int| 0 <= a < y0.len() implies (#[trigger] y0[a]).kind == kind && listed(
            y0[a],
        ) by {
            assert(y0[a] == y[a]);
        }
        assert(paths_of(x0, kind) =~= paths_of(x, kind).remove(px));
        assert(paths_of(y0, kind) =~= paths_of(y, kind).remove(py));
        lemma_ascending_is_determined(x0, y0, kind);
        assert forall|k: int| 0 <= k < x.len() implies (#[trigger] x[k]).path@ == y[k].path@ by {
            if k < x0.len() {
                assert(x0[k] == x[k]);
                assert(y0[k] == y[k]);
            }
        }
    }
}

/// The listing does not depend on the order of the enumeration: two
/// listings of enumerations that show the same directories and the same
/// files have the same rows.
pub proof fn lemma_listing_is_determined(
    a: Seq<Entry>,
    b: Seq<Entry>,
    has_parent: bool,
    first: Seq<Entry>,
    second: Seq<Entry>,
)
    requires
        is_listing(a, has_parent, first),
        is_listing(b, has_parent, second),
        paths_of(first, Kind::Directory) == paths_of(second, Kind::Directory),
        paths_of(first, Kind::File) == paths_of(second, Kind::File),
    ensures
        a.len() == b.len(),
        forall|i: int|
            0 <= i < a.len() ==> (#[trigger] a[i]).kind == b[i].kind && a[i].path@ == b[i].path@,
{
    let off: int = if has_parent { 1 } else { 0 };
    let da = choose|d: int| listing_split(a, has_parent, first, d);
    let db = choose|d: int| listing_split(b, has_parent, second, d);
    let dirs_a = a.subrange(off, da);
    let dirs_b = b.subrange(off, db);
    let files_a = a.subrange(da, a.len() as int);
    let files_b = b.subrange(db, b.len() as int);
    lemma_ascending_is_determined(dirs_a, dirs_b, Kind::Directory);
    lemma_ascending_is_determined(files_a, files_b, Kind::File);
    assert(da == db);
    assert forall|i: int| 0 <= i < a.len() implies (#[trigger] a[i]).kind == b[i].kind && a[i].path@
        == b[i].path@ by {
        if i < off {
        } else if i < da {
            assert(dirs_a[i - off] == a[i]);
            assert(dirs_b[i - off] == b[i]);
        } else {
            assert(files_a[i - da] == a[i]);
            assert(files_b[i - da] == b[i]);
        }
    }
}

/// Puts `e` into the ascending `v` at the first place where the order
/// allows it, and says where.
pub fn insert_sorted(v: &mut Vec<Entry>, e: Entry) -> (p: usize)
    requires
        ascending(old(v)@),
    ensures
        p <= old(v)@.len(),
        final(v)@ == old(v)@.insert(p as int, e),
        ascending(final(v)@),
{
    let mut p: usize = 0;
    while p < v.len() && !path_less(&e.path, &v[p].path)
        invariant
            p <= v@.len(),
            forall|j: int| 0 <= j < p ==> !path_lt(e.path@, (#[trigger] v@[j]).path@),
        decreases v@.len() - p,
    {
        p += 1;
    }
    let ghost before = v@;
    v.insert(p, e);
    proof {
        let after = v@;
        assert forall|i: int, j: int| 0 <= i < j < after.len() implies !path_lt(
            (#[trigger] after[j]).path@,
            (#[trigger] after[i]).path@,
        ) by {
            if j == p {
                assert(after[i] == before[i]);
            } else if i == p {
                assert(after[j] == before[j - 1]);
                assert(path_lt(e.path@, before[p as int].path@));
                if path_lt(after[j].path@, e.path@) {
                    lemma_path_lt_transitive(after[j].path@, e.path@, before[p as int].path@);
                    lemma_path_lt_asymmetric(e.path@, before[p as int].path@);
                    if j - 1 > p {
                        assert(!path_lt(before[j - 1].path@, before[p as int].path@));
                    }
                }
            } else {
                let bi = if i < p { i } else { i - 1 };
                let bj = if j < p { j } else { j - 1 };
                assert(after[i] == before[bi]);
                assert(after[j] == before[bj]);
            }
        }
    }
    p
}

/// The ordered listing of a directory from its unordered enumeration: the
/// parent pseudo-entry if the directory has a parent, then the directories,
/// then the files with the recognized extension, each group ascending by
/// path. Entries of any other kind are left out.
pub fn list(has_parent: bool, entries: Vec<Entry>) -> (out: Vec<Entry>)
    ensures
        is_listing(out@, has_parent, entries@),
{
    let ghost orig = entries@;
    let mut rest = entries;
    let mut dirs: Vec<Entry> = Vec::new();
    let mut files: Vec<Entry> = Vec::new();
    while rest.len() > 0
        invariant
            ascending(dirs@),
            ascending(files@),
            all_of_kind(dirs@, Kind::Directory),
            all_of_kind(files@, Kind::File),
            paths_of(dirs@, Kind::Directory).add(paths_of(rest@, Kind::Directory)) =~= paths_of(
                orig,
                Kind::Directory,
            ),
            paths_of(files@, Kind::File).add(paths_of(rest@, Kind::File)) =~= paths_of(
                orig,
                Kind::File,
            ),
        decreases rest@.len(),
    {
        let ghost rest_before = rest@;
        let ghost dirs_before = dirs@;
        let ghost files_before = files@;
        let e = rest.pop().unwrap();
        assert(rest@ =~= rest_before.drop_last());
        assert(e == rest_before.last());
        match e.kind {
            Kind::Directory => {
                let p = insert_sorted(&mut dirs, e);
                proof {
                    lemma_paths_of_insert(dirs_before, p as int, e, Kind::Directory);
                }
            },
            Kind::File => {
                if is_audio_path(&e.path) {
                    let p = insert_sorted(&mut files, e);
                    proof {
                        lemma_paths_of_insert(files_before, p as int, e, Kind::File);
                    }
                }
            },
            _ => {},
        }
    }
    let mut out: Vec<Entry> = Vec::new();
    if has_parent {
        out.push(Entry { path: vec![46u8, 46u8], kind: Kind::Parent });
        assert(out@[0].path@ =~= parent_path());
    }
    let ghost off = out@.len() as int;
    let ghost dirs_seq = dirs@;
    let ghost files_seq = files@;
    out.append(&mut dirs);
    out.append(&mut files);
    proof {
        let d = off + dirs_seq.len();
        assert(out@.subrange(off, d) =~= dirs_seq);
        assert(out@.subrange(d, out@.len() as int) =~= files_seq);
        assert(paths_of(rest@, Kind::Directory) =~= Multiset::empty());
        assert(paths_of(rest@, Kind::File) =~= Multiset::empty());
        assert(paths_of(dirs_seq, Kind::Directory) =~= paths_of(orig, Kind::Directory));
        assert(paths_of(files_seq, Kind::File) =~= paths_of(orig, Kind::File));
        assert(listing_split(out@, has_parent, orig, d));
    }
    out
}

} // verus!
