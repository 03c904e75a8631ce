//! Canonical paths as byte strings: their order and their recognized
//! extension.

use vstd::prelude::*;

verus! {

/// `a` and `b` agree on their first `k` bytes, and right there `a` ends
/// first or holds the smaller byte.
pub open spec fn precedes_at(a: Seq<u8>, b: Seq<u8>, k: int) -> bool {
    &&& 0 <= k <= a.len()
    &&& k < b.len()
    &&& forall|j: int| 0 <= j < k ==> a[j] == b[j]
    &&& (k < a.len() ==> a[k] < b[k])
}

/// Lexicographic order on byte strings: `a` comes strictly before `b`.
pub open spec fn path_lt(a: Seq<u8>, b: Seq<u8>) -> bool {
    exists|k: int| precedes_at(a, b, k)
}

/// The order is asymmetric.
pub proof fn lemma_path_lt_asymmetric(a: Seq<u8>, b: Seq<u8>)
    ensures
        !(path_lt(a, b) && path_lt(b, a)),
{
    if path_lt(a, b) && path_lt(b, a) {
        let k1 = choose|k: int| precedes_at(a, b, k);
        let k2 = choose|k: int| precedes_at(b, a, k);
        if k1 < k2 {
            assert(b[k1] == a[k1]);
        } else if k2 < k1 {
            assert(a[k2] == b[k2]);
        }
    }
}

/// The order is transitive.
pub proof fn lemma_path_lt_transitive(a: Seq<u8>, b: Seq<u8>, c: Seq<u8>)
    requires
        path_lt(a, b),
        path_lt(b, c),
    ensures
        path_lt(a, c),
{
    let k1 = choose|k: int| precedes_at(a, b, k);
    let k2 = choose|k: int| precedes_at(b, c, k);
    let k = if k1 <= k2 { k1 } else { k2 };
    assert forall|j: int| 0 <= j < k implies a[j] == c[j] by {
        assert(a[j] == b[j]);
        assert(b[j] == c[j]);
    }
    assert(precedes_at(a, c, k));
}

/// Any two different byte strings are ordered one way or the other.
pub proof fn lemma_path_lt_total(a: Seq<u8>, b: Seq<u8>)
    ensures
        a == b || path_lt(a, b) || path_lt(b, a),
    decreases a.len(),
{
    if a.len() == 0 {
        if b.len() == 0 {
            assert(a =~= b);
        } else {
            assert(precedes_at(a, b, 0));
        }
    } else if b.len() == 0 {
        assert(precedes_at(b, a, 0));
    } else if a[0] < b[0] {
        assert(precedes_at(a, b, 0));
    } else if b[0] < a[0] {
        assert(precedes_at(b, a, 0));
    } else {
        let a1 = a.drop_first();
        let b1 = b.drop_first();
        lemma_path_lt_total(a1, b1);
        if a1 == b1 {
            assert forall|j: int| 0 <= j < a.len() implies a[j] == b[j] by {
                if j > 0 {
                    assert(a[j] == a1[j - 1]);
                    assert(b[j] == b1[j - 1]);
                }
            }
            assert(a.len() == a1.len() + 1 && b.len() == b1.len() + 1);
            assert(a =~= b);
        } else if path_lt(a1, b1) {
            let k = choose|k: int| precedes_at(a1, b1, k);
            assert forall|j: int| 0 <= j < k + 1 implies a[j] == b[j] by {
                if j > 0 {
                    assert(a1[j - 1] == b1[j - 1]);
                }
            }
            assert(k < a1.len() ==> a[k + 1] == a1[k] && b[k + 1] == b1[k]);
            assert(precedes_at(a, b, k + 1));
        } else {
            let k = choose|k: int| precedes_at(b1, a1, k);
            assert forall|j: int| 0 <= j < k + 1 implies b[j] == a[j] by {
                if j > 0 {
                    assert(a1[j - 1] == b1[j - 1]);
                }
            }
            assert(k < b1.len() ==> a[k + 1] == a1[k] && b[k + 1] == b1[k]);
            assert(precedes_at(b, a, k + 1));
        }
    }
}

/// Whether `a` comes strictly before `b`.
pub fn path_less(a: &Vec<u8>, b: &Vec<u8>) -> (less: bool)
    ensures
        less == path_lt(a@, b@),
{
    let mut i: usize = 0;
    while i < a.len() && i < b.len()
        invariant
            i <= a@.len(),
            i <= b@.len(),
            forall|j: int| 0 <= j < i ==> a@[j] == b@[j],
        decreases a@.len() - i,
    {
        if a[i] != b[i] {
            let less = a[i] < b[i];
            proof {
                if less {
                    assert(precedes_at(a@, b@, i as int));
                } else if path_lt(a@, b@) {
                    let k = choose|k: int| precedes_at(a@, b@, k);
                    if k > i {
                        assert(a@[i as int] == b@[i as int]);
                    }
                }
            }
            return less;
        }
        i += 1;
    }
    let less = a.len() < b.len();
    proof {
        if less {
            assert(precedes_at(a@, b@, i as int));
        } else if path_lt(a@, b@) {
            let k = choose|k: int| precedes_at(a@, b@, k);
            assert(false);
        }
    }
    less
}

/// Whether `a` and `b` are the same path.
pub fn same_path(a: &Vec<u8>, b: &Vec<u8>) -> (same: bool)
    ensures
        same == (a@ == b@),
{
    if a.len() != b.len() {
        return false;
    }
    let mut i: usize = 0;
    while i < a.len()
        invariant
            a@.len() == b@.len(),
            i <= a@.len(),
            forall|j: int| 0 <= j < i ==> a@[j] == b@[j],
        decreases a@.len() - i,
    {
        if a[i] != b[i] {
            return false;
        }
        i += 1;
    }
    assert(a@ =~= b@);
    true
}

/// A copy of `p`.
pub fn copy_path(p: &Vec<u8>) -> (q: Vec<u8>)
    ensures
        q@ == p@,
{
    let mut q: Vec<u8> = Vec::new();
    let mut i: usize = 0;
    while i < p.len()
        invariant
            i <= p@.len(),
            q@ == p@.take(i as int),
        decreases p@.len() - i,
    {
        q.push(p[i]);
        assert(p@.take(i as int).push(p@[i as int]) =~= p@.take(i + 1));
        i += 1;
    }
    assert(p@.take(p@.len() as int) =~= p@);
    q
}

/// The index of the last separator in `p`, or -1 if it has none.
pub open spec fn last_separator(p: Seq<u8>) -> int
    decreases p.len(),
{
    if p.len() == 0 {
        -1
    } else if p.last() == 47u8 {
        p.len() - 1
    } else {
        last_separator(p.drop_last())
    }
}

/// The path without its last segment. For a canonical absolute path this
/// is the parent directory: the root has none, a path right below the root
/// has the root, and any other has what stands before its last separator.
/// A path without a separator has none either.
pub open spec fn parent_view(p: Seq<u8>) -> Option<Seq<u8>> {
    let k = last_separator(p);
    if k < 0 || p.len() <= 1 {
        None
    } else if k == 0 {
        Some(seq![47u8])
    } else {
        Some(p.subrange(0, k))
    }
}

/// Pops the last segment off `p`, if there is one to pop.
pub fn parent_of(p: &Vec<u8>) -> (parent: Option<Vec<u8>>)
    ensures
        match parent {
            Some(q) => parent_view(p@) == Some(q@),
            None => parent_view(p@) is None,
        },
{
    let mut i: usize = p.len();
    assert(p@.take(i as int) =~= p@);
    while i > 0 && p[i - 1] != 47u8
        invariant
            i <= p@.len(),
            last_separator(p@) == last_separator(p@.take(i as int)),
        decreases i,
    {
        assert(p@.take(i as int).drop_last() =~= p@.take(i - 1));
        i -= 1;
    }
    if i == 0 || p.len() <= 1 {
        return None;
    }
    let k = i - 1;
    let mut q: Vec<u8> = Vec::new();
    if k == 0 {
        q.push(47u8);
        assert(q@ =~= seq![47u8]);
    } else {
        let mut j: usize = 0;
        while j < k
            invariant
                j <= k,
                k < p@.len(),
                q@ == p@.take(j as int),
            decreases k - j,
        {
            q.push(p[j]);
            assert(p@.take(j as int).push(p@[j as int]) =~= p@.take(j + 1));
            j += 1;
        }
        assert(p@.take(k as int) =~= p@.subrange(0, k as int));
    }
    Some(q)
}

/// A directory is the parent of what stands right below it: popping the
/// last segment off `dir`, a separator and `name` gives `dir` back, where
/// `name` is not empty and holds no separator and `dir` is not the root;
/// and popping it off the root and `name` gives the root back.
pub proof fn lemma_parent_of_child(dir: Seq<u8>, name: Seq<u8>)
    requires
        name.len() > 0,
        forall|i: int| 0 <= i < name.len() ==> name[i] != 47u8,
        dir.len() > 0,
    ensures
        parent_view(dir + seq![47u8] + name) == Some(dir),
        parent_view(seq![47u8] + name) == Some(seq![47u8]),
{
    lemma_last_separator_before(dir + seq![47u8], name);
    assert((dir + seq![47u8]).last() == 47u8);
    assert((dir + seq![47u8] + name).subrange(0, dir.len() as int) =~= dir);
    lemma_last_separator_before(seq![47u8], name);
    assert(seq![47u8].last() == 47u8);
}

/// Behind a `head` that ends in a separator, a `tail` without separators
/// leaves the last separator where it was.
pub proof fn lemma_last_separator_before(head: Seq<u8>, tail: Seq<u8>)
    requires
        head.len() > 0,
        head.last() == 47u8,
        forall|i: int| 0 <= i < tail.len() ==> tail[i] != 47u8,
    ensures
        last_separator(head + tail) == head.len() - 1,
    decreases tail.len(),
{
    if tail.len() == 0 {
        assert(head + tail =~= head);
    } else {
        let shorter = tail.drop_last();
        assert((head + tail).drop_last() =~= head + shorter);
        assert((head + tail).last() == tail.last());
        assert forall|i: int| 0 <= i < shorter.len() implies shorter[i] != 47u8 by {
            assert(shorter[i] == tail[i]);
        }
        lemma_last_separator_before(head, shorter);
    }
}

/// The path's last component has the extension `mp3`: a dot and the three
/// letters end the path, and a non-empty stem stands between them and the
/// last separator.
pub open spec fn has_audio_extension(p: Seq<u8>) -> bool {
    let n = p.len() as int;
    &&& n >= 5
    &&& p[n - 5] != 47u8
    &&& p[n - 4] == 46u8
    &&& p[n - 3] == 109u8
    &&& p[n - 2] == 112u8
    &&& p[n - 1] == 51u8
}

/// Whether the path names a file that this tool recognizes: only the
/// extension `mp3`, in lower case, is accepted.
pub fn is_audio_path(p: &Vec<u8>) -> (ok: bool)
    ensures
        ok == has_audio_extension(p@),
{
    let n = p.len();
    n >= 5 && p[n - 5] != 47u8 && p[n - 4] == 46u8 && p[n - 3] == 109u8 && p[n - 2] == 112u8
        && p[n - 1] == 51u8
}

} // verus!
