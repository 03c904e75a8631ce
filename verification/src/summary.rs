//! The tag aggregator: one display value per summarized field, merged over
//! the selected files.

use crate::selection::{
    distinct_paths, has_path, index_of, lemma_map_at, record_of, selection_map, Selected,
};
use crate::tags::{
    display_of, display_value, field_id, multiple_value, none_value, same_text, vocabulary, Frame,
    FIELD_COUNT,
};
use vstd::prelude::*;

verus! {

/// One row of the summary: a field id and what is shown for it.
#[derive(Debug)]
pub struct SummaryRow {
    pub field: String,
    pub value: String,
}

/// The values that the frames of one tag supply for `field`, in frame order.
pub open spec fn frame_values(frames: Seq<Frame>, field: Seq<char>) -> Seq<Seq<char>>
    decreases frames.len(),
{
    if frames.len() == 0 {
        Seq::empty()
    } else {
        let rest = frame_values(frames.drop_last(), field);
        if frames.last().id@ == field {
            rest.push(display_of(frames.last().content))
        } else {
            rest
        }
    }
}

/// The values that one selected path supplies for `field`: those of its tag
/// if it is a file with a tag, none otherwise.
pub open spec fn entry_values(e: Selected, field: Seq<char>) -> Seq<Seq<char>> {
    match e.tag {
        Some(tag) if e.is_file => frame_values(tag.frames@, field),
        _ => Seq::empty(),
    }
}

/// The values that the whole selection supplies for `field`.
pub open spec fn contributed(sel: Seq<Selected>, field: Seq<char>) -> Seq<Seq<char>>
    decreases sel.len(),
{
    if sel.len() == 0 {
        Seq::empty()
    } else {
        contributed(sel.drop_last(), field) + entry_values(sel.last(), field)
    }
}

/// Two of the values differ.
pub open spec fn conflicting(values: Seq<Seq<char>>) -> bool {
    exists|k: int| 0 <= k < values.len() && #[trigger] values[k] != values[0]
}

/// The merge rule: no value gives the none-sentinel, values that are all
/// equal give that value, and values that differ give the
/// conflicting-sentinel.
pub open spec fn merged(values: Seq<Seq<char>>) -> Seq<char> {
    if values.len() == 0 {
        none_value()
    } else if conflicting(values) {
        multiple_value()
    } else {
        values[0]
    }
}

/// What the summary shows for `field`.
pub open spec fn summary_value(sel: Seq<Selected>, field: Seq<char>) -> Seq<char> {
    merged(contributed(sel, field))
}

/// `rows` is the summary of `sel`: one row per summarized field, in the
/// vocabulary's order, each with the merged value of its field.
pub open spec fn is_summary(rows: Seq<SummaryRow>, sel: Seq<Selected>) -> bool {
    &&& rows.len() == vocabulary().len()
    &&& forall|i: int|
        0 <= i < rows.len() ==> (#[trigger] rows[i]).field@ == vocabulary()[i] && rows[i].value@
            == summary_value(sel, vocabulary()[i])
}

/// The merge rule in its three cases: a field for which no selected file
/// supplies a value shows the none-sentinel; one for which every supplied
/// value is the same shows that value; one for which two supplied values
/// differ shows the conflicting-sentinel.
pub proof fn lemma_summary_cases(sel: Seq<Selected>, field: Seq<char>)
    ensures
        contributed(sel, field).len() == 0 ==> summary_value(sel, field) == none_value(),
        contributed(sel, field).len() > 0 && (forall|k: int|
            0 <= k < contributed(sel, field).len() ==> #[trigger] contributed(sel, field)[k]
                == contributed(sel, field)[0]) ==> summary_value(sel, field) == contributed(
            sel,
            field,
        )[0],
        (exists|i: int, j: int|
            0 <= i < contributed(sel, field).len() && 0 <= j < contributed(sel, field).len()
                && #[trigger] contributed(sel, field)[i] != #[trigger] contributed(sel, field)[j])
            ==> summary_value(sel, field) == multiple_value(),
{
    let values = contributed(sel, field);
    if values.len() > 0 && conflicting(values) {
        let k = choose|k: int| 0 <= k < values.len() && #[trigger] values[k] != values[0];
        assert(values[k] != values[0]);
    }
    if exists|i: int, j: int|
        0 <= i < values.len() && 0 <= j < values.len() && #[trigger] values[i] != #[trigger] values[j] {
        let (i, j) = choose|i: int, j: int|
            0 <= i < values.len() && 0 <= j < values.len() && #[trigger] values[i]
                != #[trigger] values[j];
        if values[i] != values[0] {
            assert(conflicting(values));
        } else {
            assert(values[j] != values[0]);
            assert(conflicting(values));
        }
    }
}

/// A selected path that is no file, or has no tag, supplies nothing.
pub proof fn lemma_only_tagged_files_contribute(e: Selected, field: Seq<char>)
    requires
        !e.is_file || e.tag is None,
    ensures
        entry_values(e, field).len() == 0,
{
}

/// With nothing selected every field shows the none-sentinel, so a summary
/// of a cleared selection and one of a fresh selection show the same.
pub proof fn lemma_empty_selection_summary(
    cleared: Seq<SummaryRow>,
    fresh: Seq<SummaryRow>,
)
    requires
        is_summary(cleared, Seq::<Selected>::empty()),
        is_summary(fresh, Seq::<Selected>::empty()),
    ensures
        cleared.len() == fresh.len(),
        forall|i: int|
            0 <= i < cleared.len() ==> (#[trigger] cleared[i]).field@ == fresh[i].field@
                && cleared[i].value@ == fresh[i].value@ && cleared[i].value@ == none_value(),
{
}

/// Some selected path supplies the value `v` for `field`.
pub open spec fn supplies(sel: Seq<Selected>, field: Seq<char>, v: Seq<char>) -> bool {
    exists|i: int| 0 <= i < sel.len() && #[trigger] entry_values(sel[i], field).contains(v)
}

/// The contributed values are those that some selected path supplies.
pub proof fn lemma_contributed_values(sel: Seq<Selected>, field: Seq<char>, v: Seq<char>)
    ensures
        contributed(sel, field).contains(v) <==> supplies(sel, field, v),
    decreases sel.len(),
{
    if sel.len() > 0 {
        let front = sel.drop_last();
        let here = entry_values(sel.last(), field);
        let all = contributed(sel, field);
        lemma_contributed_values(front, field, v);
        if all.contains(v) {
            let k = choose|k: int| 0 <= k < all.len() && all[k] == v;
            if k < contributed(front, field).len() {
                assert(contributed(front, field)[k] == v);
                let i = choose|i: int|
                    0 <= i < front.len() && #[trigger] entry_values(front[i], field).contains(v);
                assert(sel[i] == front[i]);
            } else {
                assert(here[k - contributed(front, field).len()] == v);
                assert(entry_values(sel[sel.len() - 1], field).contains(v));
            }
        }
        if supplies(sel, field, v) {
            let i = choose|i: int|
                0 <= i < sel.len() && #[trigger] entry_values(sel[i], field).contains(v);
            if i < front.len() {
                assert(front[i] == sel[i]);
                let k = choose|k: int|
                    0 <= k < contributed(front, field).len() && contributed(front, field)[k] == v;
                assert(all[k] == v);
            } else {
                let k = choose|k: int| 0 <= k < here.len() && here[k] == v;
                assert(all[contributed(front, field).len() + k] == v);
            }
        }
    }
}

/// The merge rule looks only at which values occur, not at their order or
/// their number.
pub proof fn lemma_merged_by_content(a: Seq<Seq<char>>, b: Seq<Seq<char>>)
    requires
        forall|v: Seq<char>| a.contains(v) <==> b.contains(v),
    ensures
        merged(a) == merged(b),
{
    if a.len() == 0 {
        if b.len() > 0 {
            assert(b.contains(b[0]));
        }
    } else {
        assert(a.contains(a[0]));
        assert(b.contains(a[0]));
        assert(b.contains(b[0]));
        assert(a.contains(b[0]));
        if conflicting(a) {
            let k = choose|k: int| 0 <= k < a.len() && #[trigger] a[k] != a[0];
            assert(a.contains(a[k]));
            assert(b.contains(a[k]));
            let k0 = choose|j: int| 0 <= j < b.len() && b[j] == a[0];
            let k1 = choose|j: int| 0 <= j < b.len() && b[j] == a[k];
            if b[k0] != b[0] {
                assert(conflicting(b));
            } else {
                assert(b[k1] != b[0]);
                assert(conflicting(b));
            }
        } else {
            if conflicting(b) {
                let k = choose|k: int| 0 <= k < b.len() && #[trigger] b[k] != b[0];
                assert(b.contains(b[k]));
                assert(a.contains(b[k]));
                let j0 = choose|j: int| 0 <= j < a.len() && a[j] == b[0];
                let j1 = choose|j: int| 0 <= j < a.len() && a[j] == b[k];
                assert(a[j0] == a[0]);
                assert(a[j1] == a[0]);
            }
            let j0 = choose|j: int| 0 <= j < a.len() && a[j] == b[0];
            assert(a[j0] == a[0]);
        }
    }
}

/// The summary is a view of the selection set alone: two selections that
/// hold the same paths with the same records show the same value for every
/// field, in whatever order the paths were selected.
pub proof fn lemma_summary_of_the_set(first: Seq<Selected>, second: Seq<Selected>, field: Seq<char>)
    requires
        distinct_paths(first),
        distinct_paths(second),
        selection_map(first) == selection_map(second),
    ensures
        summary_value(first, field) == summary_value(second, field),
{
    let a = contributed(first, field);
    let b = contributed(second, field);
    assert forall|v: Seq<char>| a.contains(v) <==> b.contains(v) by {
        lemma_contributed_values(first, field, v);
        lemma_contributed_values(second, field, v);
        if supplies(first, field, v) {
            let i = choose|i: int|
                0 <= i < first.len() && #[trigger] entry_values(first[i], field).contains(v);
            lemma_map_at(first, i);
            assert(has_path(second, first[i].path@));
            let j = index_of(second, first[i].path@);
            lemma_map_at(second, j);
            assert(record_of(second[j]) == record_of(first[i]));
            assert(entry_values(second[j], field) == entry_values(first[i], field));
        }
        if supplies(second, field, v) {
            let j = choose|j: int|
                0 <= j < second.len() && #[trigger] entry_values(second[j], field).contains(v);
            lemma_map_at(second, j);
            assert(has_path(first, second[j].path@));
            let i = index_of(first, second[j].path@);
            lemma_map_at(first, i);
            assert(record_of(first[i]) == record_of(second[j]));
            assert(entry_values(first[i], field) == entry_values(second[j], field));
        }
    }
    lemma_merged_by_content(a, b);
}

/// What the running merge has seen so far stands for `values`.
pub open spec fn tracks(seen: Option<String>, conflict: bool, values: Seq<Seq<char>>) -> bool {
    match seen {
        None => values.len() == 0 && !conflict,
        Some(s) => values.len() > 0 && s@ == values[0] && conflict == conflicting(values),
    }
}

/// Whether two strings hold the same text.
pub fn same_string(a: &String, b: &String) -> (same: bool)
    ensures
        same == (a@ == b@),
{
    *a == *b
}

/// The merged value of one field over the selection.
pub fn summarize_field(sel: &Vec<Selected>, field: &str) -> (value: String)
    ensures
        value@ == summary_value(sel@, field@),
{
    let mut seen: Option<String> = None;
    let mut conflict = false;
    let ghost mut values: Seq<Seq<char>> = Seq::empty();
    let mut i: usize = 0;
    while i < sel.len()
        invariant
            i <= sel@.len(),
            values == contributed(sel@.take(i as int), field@),
            tracks(seen, conflict, values),
        decreases sel@.len() - i,
    {
        let entry = &sel[i];
        let ghost base = values;
        assert(sel@.take(i + 1).drop_last() =~= sel@.take(i as int));
        assert(sel@.take(i + 1).last() == sel@[i as int]);
        match &entry.tag {
            Some(tag) if entry.is_file => {
                let mut j: usize = 0;
                assert(base + frame_values(tag.frames@.take(0), field@) =~= base);
                while j < tag.frames.len()
                    invariant
                        j <= tag.frames@.len(),
                        values == base + frame_values(tag.frames@.take(j as int), field@),
                        tracks(seen, conflict, values),
                    decreases tag.frames@.len() - j,
                {
                    let frame = &tag.frames[j];
                    assert(tag.frames@.take(j + 1).drop_last() =~= tag.frames@.take(j as int));
                    assert(tag.frames@.take(j + 1).last() == tag.frames@[j as int]);
                    if same_text(frame.id.as_str(), field) {
                        let v = display_value(&frame.content);
                        let ghost before = values;
                        proof {
                            values = values.push(v@);
                            assert(values =~= base + frame_values(
                                tag.frames@.take(j + 1),
                                field@,
                            ));
                        }
                        let differs = match &seen {
                            Some(s) => !same_string(s, &v),
                            None => false,
                        };
                        if seen.is_none() {
                            seen = Some(v);
                        } else if differs {
                            conflict = true;
                            assert(values[before.len() as int] != values[0]);
                        } else {
                            proof {
                                if conflicting(values) {
                                    let k = choose|k: int|
                                        0 <= k < values.len() && #[trigger] values[k] != values[0];
                                    assert(before[k] != before[0]);
                                }
                                if conflicting(before) {
                                    let k = choose|k: int|
                                        0 <= k < before.len() && #[trigger] before[k] != before[0];
                                    assert(values[k] != values[0]);
                                }
                            }
                        }
                    }
                    j += 1;
                }
                assert(tag.frames@.take(tag.frames@.len() as int) =~= tag.frames@);
            },
            _ => {
                assert(base + entry_values(sel@[i as int], field@) =~= base);
            },
        }
        i += 1;
    }
    assert(sel@.take(sel@.len() as int) =~= sel@);
    match seen {
        Some(s) => {
            if conflict {
                String::from_str("<multiple>")
            } else {
                s
            }
        },
        None => String::from_str("<none>"),
    }
}

/// The summary of the selection: one row per summarized field, always
/// computed afresh.
pub fn summarize(sel: &Vec<Selected>) -> (rows: Vec<SummaryRow>)
    ensures
        is_summary(rows@, sel@),
{
    let mut rows: Vec<SummaryRow> = Vec::new();
    let mut i: usize = 0;
    while i < FIELD_COUNT
        invariant
            i <= FIELD_COUNT,
            vocabulary().len() == FIELD_COUNT,
            rows@.len() == i,
            forall|k: int|
                0 <= k < i ==> (#[trigger] rows@[k]).field@ == vocabulary()[k] && rows@[k].value@
                    == summary_value(sel@, vocabulary()[k]),
        decreases FIELD_COUNT - i,
    {
        let id = field_id(i);
        let value = summarize_field(sel, id);
        rows.push(SummaryRow { field: String::from_str(id), value });
        i += 1;
    }
    rows
}

} // verus!
