//! The navigation controller: the listing of the working directory with its
//! cursor, the selection set, and the summary that always follows it.

use crate::list::{moved, GenericList, Motion};
use crate::listing::{is_listing, list, Entry, Kind};
use crate::path::{copy_path, parent_of, parent_view, same_path};
use crate::selection::{
    count_files, distinct_paths, file_count, position_of, selection_map, toggle_walk, toggled,
    Selected,
};
use crate::summary::{is_summary, summarize, SummaryRow};
use vstd::prelude::*;

verus! {

/// The controller's mode. Browsing is the only one.
#[derive(Clone, Copy, PartialEq, Eq, Structural, Debug)]
pub enum AppState {
    FileNavigation,
}

/// What the controller needs from the file system before a command can
/// take effect. The caller does the work and hands the answer back; if the
/// work fails it hands nothing back, and no state has changed.
#[derive(Debug)]
pub enum Request {
    /// Nothing: the command is complete.
    Nothing,
    /// Change to this directory and list it.
    Enter(Vec<u8>),
    /// Walk the subtree at this path and toggle it.
    Toggle(Vec<u8>),
}

/// A request as a mathematical value.
pub enum Wanted {
    Nothing,
    Enter(Seq<u8>),
    Toggle(Seq<u8>),
}

impl View for Request {
    type V = Wanted;

    open spec fn view(&self) -> Wanted {
        match *self {
            Request::Nothing => Wanted::Nothing,
            Request::Enter(p) => Wanted::Enter(p@),
            Request::Toggle(p) => Wanted::Toggle(p@),
        }
    }
}

/// Why the file system could not supply what a request asked for.
#[derive(Clone, Copy, PartialEq, Eq, Structural, Debug)]
pub enum FilesystemError {
    /// A directory could not be enumerated.
    Enumeration,
    /// The working directory could not be found or changed.
    WorkingDirectory,
}

/// What came of a request.
#[derive(Debug)]
pub enum Answer {
    /// The new working directory: its canonical path and its unordered
    /// enumeration.
    Listed { cwd: Vec<u8>, entries: Vec<Entry> },
    /// The complete walk of the subtree to toggle.
    Walked(Vec<Selected>),
    /// The work failed.
    Failed(FilesystemError),
}

pub struct App {
    pub state: AppState,
    pub quit: bool,
    /// The canonical path of the working directory.
    pub cwd: Vec<u8>,
    pub pwd: GenericList<Entry>,
    pub selected_files: Vec<Selected>,
    pub tag_sum: Vec<SummaryRow>,
}

impl App {
    /// The cursor is within the listing, no path is selected twice, and the
    /// summary is that of the selection.
    pub open spec fn wf(&self) -> bool {
        &&& self.pwd.wf()
        &&& distinct_paths(self.selected_files@)
        &&& is_summary(self.tag_sum@, self.selected_files@)
    }

    /// The entry under the cursor, if the listing has one.
    pub open spec fn current(&self) -> Option<Entry> {
        match self.pwd.cursor() {
            Some(i) => Some(self.pwd.items@[i as int]),
            None => None,
        }
    }

    /// Leaving pops one segment off the working directory, and is no
    /// operation at a root.
    pub open spec fn wanted_on_exit(&self) -> Wanted {
        match parent_view(self.cwd@) {
            Some(parent) => Wanted::Enter(parent),
            None => Wanted::Nothing,
        }
    }

    /// Entering goes where the cursor points, if that is a directory, leaves
    /// if it is the parent pseudo-entry, and is no operation otherwise.
    pub open spec fn wanted_on_enter(&self) -> Wanted {
        match self.current() {
            Some(e) => match e.kind {
                Kind::Parent => self.wanted_on_exit(),
                Kind::Directory => Wanted::Enter(e.path@),
                _ => Wanted::Nothing,
            },
            None => Wanted::Nothing,
        }
    }

    /// Selecting toggles what the cursor points at, unless that is the
    /// parent pseudo-entry or the listing is empty.
    pub open spec fn wanted_on_select(&self) -> Wanted {
        match self.current() {
            Some(e) => match e.kind {
                Kind::Parent => Wanted::Nothing,
                _ => Wanted::Toggle(e.path@),
            },
            None => Wanted::Nothing,
        }
    }

    /// The controller at start: the listing of the working directory with
    /// the cursor on its first row, nothing selected, every field of the
    /// summary at the none-sentinel.
    pub fn default(cwd: Vec<u8>, entries: Vec<Entry>) -> (app: Self)
        ensures
            app.wf(),
            !app.quit,
            app.cwd == cwd,
            is_listing(app.pwd.items@, parent_view(cwd@) is Some, entries@),
            app.pwd.cursor() == (if app.pwd.items@.len() == 0 { None } else { Some(0usize) }),
            app.selected_files@.len() == 0,
    {
        let selected_files: Vec<Selected> = Vec::new();
        let tag_sum = summarize(&selected_files);
        let has_parent = parent_of(&cwd).is_some();
        Self {
            state: AppState::FileNavigation,
            quit: false,
            cwd,
            pwd: GenericList::<Entry>::from(list(has_parent, entries)),
            selected_files,
            tag_sum,
        }
    }

    /// Leaving the working directory: what has to be done first.
    pub fn exit_dir(&self) -> (request: Request)
        ensures
            request@ == self.wanted_on_exit(),
    {
        match parent_of(&self.cwd) {
            Some(parent) => Request::Enter(parent),
            None => Request::Nothing,
        }
    }

    /// Takes a new working directory and its enumeration: the rows are
    /// replaced, with the parent pseudo-entry in front if the directory has a
    /// parent, and the cursor goes to the first of them. The selection and
    /// its summary stay as they are.
    pub fn refresh_pwd(&mut self, cwd: Vec<u8>, entries: Vec<Entry>)
        ensures
            final(self).cwd == cwd,
            is_listing(final(self).pwd.items@, parent_view(cwd@) is Some, entries@),
            final(self).pwd.cursor() == (if final(self).pwd.items@.len() == 0 {
                None
            } else {
                Some(0usize)
            }),
            final(self).pwd.wf(),
            final(self).selected_files == old(self).selected_files,
            final(self).tag_sum == old(self).tag_sum,
            final(self).quit == old(self).quit,
            final(self).state == old(self).state,
    {
        let has_parent = parent_of(&cwd).is_some();
        self.cwd = cwd;
        self.pwd = GenericList::<Entry>::from(list(has_parent, entries));
    }

    /// The idle tick changes nothing.
    pub fn on_tick(&mut self)
        ensures
            *final(self) == *old(self),
    {
        match self.state {
            AppState::FileNavigation => {},
        }
    }

    pub fn list_down(&mut self)
        requires
            old(self).pwd.wf(),
        ensures
            final(self).pwd.wf(),
            final(self).pwd.items == old(self).pwd.items,
            final(self).pwd.cursor() == moved(
                old(self).pwd.cursor(),
                old(self).pwd.items@.len(),
                Motion::Down,
            ),
            final(self).selected_files == old(self).selected_files,
            final(self).tag_sum == old(self).tag_sum,
            final(self).quit == old(self).quit,
            final(self).cwd == old(self).cwd,
            final(self).state == old(self).state,
    {
        match self.state {
            AppState::FileNavigation => {
                self.pwd.move_down();
            },
        }
    }

    pub fn list_up(&mut self)
        requires
            old(self).pwd.wf(),
        ensures
            final(self).pwd.wf(),
            final(self).pwd.items == old(self).pwd.items,
            final(self).pwd.cursor() == moved(
                old(self).pwd.cursor(),
                old(self).pwd.items@.len(),
                Motion::Up,
            ),
            final(self).selected_files == old(self).selected_files,
            final(self).tag_sum == old(self).tag_sum,
            final(self).quit == old(self).quit,
            final(self).cwd == old(self).cwd,
            final(self).state == old(self).state,
    {
        match self.state {
            AppState::FileNavigation => {
                self.pwd.move_up();
            },
        }
    }

    pub fn jump_to_list_top(&mut self)
        requires
            old(self).pwd.wf(),
        ensures
            final(self).pwd.wf(),
            final(self).pwd.items == old(self).pwd.items,
            final(self).pwd.cursor() == moved(
                old(self).pwd.cursor(),
                old(self).pwd.items@.len(),
                Motion::Top,
            ),
            final(self).selected_files == old(self).selected_files,
            final(self).tag_sum == old(self).tag_sum,
            final(self).quit == old(self).quit,
            final(self).cwd == old(self).cwd,
            final(self).state == old(self).state,
    {
        match self.state {
            AppState::FileNavigation => {
                self.pwd.jump_top();
            },
        }
    }

    pub fn jump_to_list_bottom(&mut self)
        requires
            old(self).pwd.wf(),
        ensures
            final(self).pwd.wf(),
            final(self).pwd.items == old(self).pwd.items,
            final(self).pwd.cursor() == moved(
                old(self).pwd.cursor(),
                old(self).pwd.items@.len(),
                Motion::Bottom,
            ),
            final(self).selected_files == old(self).selected_files,
            final(self).tag_sum == old(self).tag_sum,
            final(self).quit == old(self).quit,
            final(self).cwd == old(self).cwd,
            final(self).state == old(self).state,
    {
        match self.state {
            AppState::FileNavigation => {
                self.pwd.jump_bottom();
            },
        }
    }

    /// Entering the directory under the cursor: what has to be done first.
    pub fn enter_dir(&self) -> (request: Request)
        requires
            self.pwd.wf(),
        ensures
            request@ == self.wanted_on_enter(),
    {
        match self.state {
            AppState::FileNavigation => {
                if let Some(i) = self.pwd.get_index() {
                    let entry = &self.pwd.items[i];
                    match entry.kind {
                        Kind::Parent => self.exit_dir(),
                        Kind::Directory => Request::Enter(copy_path(&entry.path)),
                        _ => Request::Nothing,
                    }
                } else {
                    Request::Nothing
                }
            },
        }
    }

    /// Toggling what is under the cursor: what has to be done first.
    pub fn select(&self) -> (request: Request)
        requires
            self.pwd.wf(),
        ensures
            request@ == self.wanted_on_select(),
    {
        match self.state {
            AppState::FileNavigation => {
                if let Some(i) = self.pwd.get_index() {
                    let entry = &self.pwd.items[i];
                    match entry.kind {
                        Kind::Parent => Request::Nothing,
                        _ => Request::Toggle(copy_path(&entry.path)),
                    }
                } else {
                    Request::Nothing
                }
            },
        }
    }

    /// Toggles every path of a completed walk, first to last, and brings
    /// the summary up to date.
    pub fn toggle_select_path(&mut self, walk: Vec<Selected>)
        requires
            distinct_paths(old(self).selected_files@),
        ensures
            distinct_paths(final(self).selected_files@),
            selection_map(final(self).selected_files@) == toggled(
                selection_map(old(self).selected_files@),
                walk@,
            ),
            is_summary(final(self).tag_sum@, final(self).selected_files@),
            final(self).pwd == old(self).pwd,
            final(self).quit == old(self).quit,
            final(self).cwd == old(self).cwd,
            final(self).state == old(self).state,
    {
        toggle_walk(&mut self.selected_files, walk);
        self.update_tag_sum();
    }

    /// Computes the summary afresh from the selection.
    pub fn update_tag_sum(&mut self)
        ensures
            is_summary(final(self).tag_sum@, final(self).selected_files@),
            final(self).selected_files == old(self).selected_files,
            final(self).pwd == old(self).pwd,
            final(self).quit == old(self).quit,
            final(self).cwd == old(self).cwd,
            final(self).state == old(self).state,
    {
        self.tag_sum = summarize(&self.selected_files);
    }

    /// Takes the answer to a request. A listing replaces the rows and
    /// resets the cursor; a walk is toggled and the summary brought up to
    /// date; a failure is handed back as the error, with the state exactly
    /// as it was.
    pub fn complete(&mut self, answer: Answer) -> (result: Result<(), FilesystemError>)
        requires
            distinct_paths(old(self).selected_files@),
        ensures
            match answer {
                Answer::Listed { cwd, entries } => {
                    &&& result is Ok
                    &&& final(self).cwd == cwd
                    &&& is_listing(final(self).pwd.items@, parent_view(cwd@) is Some, entries@)
                    &&& final(self).pwd.cursor() == (if final(self).pwd.items@.len() == 0 {
                        None
                    } else {
                        Some(0usize)
                    })
                    &&& final(self).pwd.wf()
                    &&& final(self).selected_files == old(self).selected_files
                    &&& final(self).tag_sum == old(self).tag_sum
                    &&& final(self).quit == old(self).quit
                    &&& final(self).state == old(self).state
                },
                Answer::Walked(walk) => {
                    &&& result is Ok
                    &&& distinct_paths(final(self).selected_files@)
                    &&& selection_map(final(self).selected_files@) == toggled(
                        selection_map(old(self).selected_files@),
                        walk@,
                    )
                    &&& is_summary(final(self).tag_sum@, final(self).selected_files@)
                    &&& final(self).pwd == old(self).pwd
                    &&& final(self).quit == old(self).quit
                    &&& final(self).cwd == old(self).cwd
                    &&& final(self).state == old(self).state
                },
                Answer::Failed(error) => result == Err::<(), FilesystemError>(error) && *final(self)
                    == *old(self),
            },
    {
        match answer {
            Answer::Listed { cwd, entries } => {
                self.refresh_pwd(cwd, entries);
                Ok(())
            },
            Answer::Walked(walk) => {
                self.toggle_select_path(walk);
                Ok(())
            },
            Answer::Failed(error) => Err(error),
        }
    }

    /// Whether the cursor is within the listing and no path is selected
    /// twice.
    pub fn is_valid(&self) -> (valid: bool)
        ensures
            valid == (self.pwd.wf() && distinct_paths(self.selected_files@)),
    {
        let in_range = match self.pwd.get_index() {
            Some(i) => i < self.pwd.len(),
            None => self.pwd.is_empty(),
        };
        if !in_range {
            return false;
        }
        let mut j: usize = 0;
        while j < self.selected_files.len()
            invariant
                j <= self.selected_files@.len(),
                forall|a: int, b: int|
                    0 <= a < b < j ==> (#[trigger] self.selected_files@[a]).path@ != (
                    #[trigger] self.selected_files@[b]).path@,
            decreases self.selected_files@.len() - j,
        {
            let mut i: usize = 0;
            while i < j
                invariant
                    i <= j,
                    j < self.selected_files@.len(),
                    forall|a: int|
                        0 <= a < i ==> (#[trigger] self.selected_files@[a]).path@
                            != self.selected_files@[j as int].path@,
                decreases j - i,
            {
                if same_path(&self.selected_files[i].path, &self.selected_files[j].path) {
                    return false;
                }
                i += 1;
            }
            j += 1;
        }
        true
    }

    /// Whether `path` is selected.
    pub fn is_selected(&self, path: &Vec<u8>) -> (selected: bool)
        ensures
            selected == selection_map(self.selected_files@).dom().contains(path@),
    {
        position_of(&self.selected_files, path).is_some()
    }

    /// The number of selected files.
    pub fn num_selected_files(&self) -> (count: usize)
        ensures
            count == file_count(self.selected_files@),
    {
        count_files(&self.selected_files)
    }

    /// Deselects everything; the summary goes back to that of an empty
    /// selection.
    pub fn clear_selected_files(&mut self)
        ensures
            final(self).selected_files@.len() == 0,
            is_summary(final(self).tag_sum@, Seq::<Selected>::empty()),
            is_summary(final(self).tag_sum@, final(self).selected_files@),
            distinct_paths(final(self).selected_files@),
            final(self).pwd == old(self).pwd,
            final(self).quit == old(self).quit,
            final(self).cwd == old(self).cwd,
            final(self).state == old(self).state,
    {
        self.selected_files = Vec::new();
        assert(self.selected_files@ =~= Seq::<Selected>::empty());
        self.update_tag_sum();
    }
}

} // verus!
