//! A cursor-addressed ordered sequence.

use tui::widgets::ListState;
use vstd::prelude::*;

verus! {

/// `tui::widgets::ListState`, the widget state that carries the cursor of a
/// list. Its fields are private to `tui`.
#[verifier::external_type_specification]
#[verifier::external_body]
pub struct ExListState(ListState);

/// The cursor index that a `tui::widgets::ListState` holds: what its
/// `selected` returns.
pub uninterp spec fn cursor_of(state: ListState) -> Option<usize>;

/// `tui::widgets::ListState::selected` returns the cursor index that the
/// state holds.
pub assume_specification[ ListState::selected ](state: &ListState) -> (index: Option<usize>)
    ensures
        index == cursor_of(*state),
;

/// `tui::widgets::ListState::select` makes the given index the cursor index
/// that the state holds. (It also resets the scroll offset when the index is
/// `None`; nothing here speaks of the offset.)
pub assume_specification[ ListState::select ](state: &mut ListState, index: Option<usize>)
    ensures
        cursor_of(*final(state)) == index,
;

/// `tui::widgets::ListState::default` is the derived default: a state that
/// holds no cursor index.
pub assume_specification[ <ListState as core::default::Default>::default ]() -> (state: ListState)
    ensures
        cursor_of(state) == None::<usize>,
;

/// A cursor movement.
#[derive(Clone, Copy, PartialEq, Eq, Structural, Debug)]
pub enum Motion {
    Down,
    Up,
    Top,
    Bottom,
}

/// Where a movement takes the cursor of a list of `len` items: one step at
/// a time or to an end, never past the first or the last item, and nowhere
/// on an empty list.
pub open spec fn moved(cursor: Option<usize>, len: nat, motion: Motion) -> Option<usize> {
    match cursor {
        None => None,
        Some(i) => match motion {
            Motion::Down => if i + 1 < len { Some((i + 1) as usize) } else { Some(i) },
            Motion::Up => if i > 0 { Some((i - 1) as usize) } else { Some(i) },
            Motion::Top => Some(0usize),
            Motion::Bottom => Some((len - 1) as usize),
        },
    }
}

/// The cursor after a sequence of movements, first to last.
pub open spec fn moved_all(cursor: Option<usize>, len: nat, motions: Seq<Motion>) -> Option<usize>
    decreases motions.len(),
{
    if motions.len() == 0 {
        cursor
    } else {
        moved(moved_all(cursor, len, motions.drop_last()), len, motions.last())
    }
}

/// A cursor that points into a list of `len` items.
pub open spec fn in_bounds(cursor: Option<usize>, len: nat) -> bool {
    match cursor {
        Some(i) => i < len,
        None => len == 0,
    }
}

/// Whatever movements are made, a cursor that was within the list stays
/// within it.
pub proof fn lemma_cursor_stays_in_bounds(cursor: Option<usize>, len: nat, motions: Seq<Motion>)
    requires
        in_bounds(cursor, len),
        len <= usize::MAX,
    ensures
        in_bounds(moved_all(cursor, len, motions), len),
    decreases motions.len(),
{
    if motions.len() > 0 {
        lemma_cursor_stays_in_bounds(cursor, len, motions.drop_last());
    }
}

/// An ordered sequence of items paired with an optional cursor.
pub struct GenericList<T> {
    pub items: Vec<T>,
    pub state: ListState,
}

impl<T: Clone> GenericList<T> {
    /// The cursor as a mathematical value.
    pub open spec fn cursor(&self) -> Option<usize> {
        cursor_of(self.state)
    }

    /// The cursor exists exactly when the list is non-empty, and then points
    /// at one of the items.
    pub open spec fn wf(&self) -> bool {
        in_bounds(self.cursor(), self.items@.len())
    }

    /// Wraps `items`, with the cursor on the first item if there is one.
    pub fn from(items: Vec<T>) -> (list: Self)
        ensures
            list.items == items,
            list.cursor() == (if items@.len() == 0 { None } else { Some(0usize) }),
            list.wf(),
    {
        let mut state = ListState::default();
        if items.is_empty() {
            state.select(None);
        } else {
            state.select(Some(0));
        }
        Self { items, state }
    }

    pub fn is_empty(&self) -> (empty: bool)
        ensures
            empty == (self.items@.len() == 0),
    {
        self.items.is_empty()
    }

    pub fn get_index(&self) -> (index: Option<usize>)
        ensures
            index == self.cursor(),
    {
        self.state.selected()
    }

    pub fn len(&self) -> (n: usize)
        ensures
            n == self.items@.len(),
    {
        self.items.len()
    }

    /// Moves the cursor to `index`, leaving the items alone.
    pub fn select(&mut self, index: Option<usize>)
        ensures
            final(self).items == old(self).items,
            final(self).cursor() == index,
    {
        self.state.select(index);
    }

    /// A clone of the item under the cursor.
    pub fn get_selected(&self) -> (item: Option<T>)
        requires
            self.cursor() matches Some(i) ==> i < self.items@.len(),
        ensures
            match (self.cursor(), item) {
                (Some(i), Some(v)) => cloned(self.items@[i as int], v),
                (None, None) => true,
                _ => false,
            },
    {
        if let Some(i) = self.state.selected() {
            Some(self.items[i].clone())
        } else {
            None
        }
    }

    /// Replaces the items; the cursor goes to the first item, if there is one.
    pub fn replace(&mut self, items: Vec<T>)
        ensures
            final(self).items == items,
            final(self).cursor() == (if items@.len() == 0 { None } else { Some(0usize) }),
            final(self).wf(),
    {
        if items.is_empty() {
            self.state.select(None);
        } else {
            self.state.select(Some(0));
        }
        self.items = items;
    }

    /// Moves the cursor one item down; on the last item it stays.
    pub fn move_down(&mut self)
        requires
            old(self).wf(),
        ensures
            final(self).wf(),
            final(self).items == old(self).items,
            final(self).cursor() == moved(old(self).cursor(), old(self).items@.len(), Motion::Down),
    {
        if let Some(i) = self.state.selected() {
            let last = self.items.len() - 1;
            let next = if i < last { i + 1 } else { last };
            self.state.select(Some(next));
        }
    }

    /// Moves the cursor one item up; on the first item it stays.
    pub fn move_up(&mut self)
        requires
            old(self).wf(),
        ensures
            final(self).wf(),
            final(self).items == old(self).items,
            final(self).cursor() == moved(old(self).cursor(), old(self).items@.len(), Motion::Up),
    {
        if let Some(i) = self.state.selected() {
            let next = if i > 0 { i - 1 } else { 0 };
            self.state.select(Some(next));
        }
    }

    /// Moves the cursor to the first item.
    pub fn jump_top(&mut self)
        requires
            old(self).wf(),
        ensures
            final(self).wf(),
            final(self).items == old(self).items,
            final(self).cursor() == moved(old(self).cursor(), old(self).items@.len(), Motion::Top),
    {
        if !self.items.is_empty() {
            self.state.select(Some(0));
        }
    }

    /// Moves the cursor to the last item.
    pub fn jump_bottom(&mut self)
        requires
            old(self).wf(),
        ensures
            final(self).wf(),
            final(self).items == old(self).items,
            final(self).cursor() == moved(
                old(self).cursor(),
                old(self).items@.len(),
                Motion::Bottom,
            ),
    {
        if !self.items.is_empty() {
            let last = self.items.len() - 1;
            self.state.select(Some(last));
        }
    }
}

} // verus!
