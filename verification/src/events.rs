//! From keys to commands, and from commands to what the controller does.

use crate::app::{App, AppState, Request, Wanted};
use crate::list::{moved, Motion};
use crate::selection::distinct_paths;
use vstd::prelude::*;

verus! {

/// A decoded key press.
#[derive(Clone, Copy, PartialEq, Eq, Structural, Debug)]
pub enum Key {
    Char(char),
    Esc,
    Down,
    Up,
    Home,
    End,
    Enter,
    Other,
}

/// What the operator can ask for.
#[derive(Clone, Copy, PartialEq, Eq, Structural, Debug)]
pub enum Command {
    Quit,
    ExitDir,
    EnterDirOrToggle,
    CursorDown,
    CursorUp,
    JumpTop,
    JumpBottom,
    ToggleSelect,
}

/// The command bound to a key, if any.
pub open spec fn command_of(key: Key) -> Option<Command> {
    match key {
        Key::Char(c) => if c == 'q' {
            Some(Command::Quit)
        } else if c == 'h' {
            Some(Command::ExitDir)
        } else if c == 'l' {
            Some(Command::EnterDirOrToggle)
        } else if c == 'j' {
            Some(Command::CursorDown)
        } else if c == 'k' {
            Some(Command::CursorUp)
        } else if c == 'g' {
            Some(Command::JumpTop)
        } else if c == 'G' {
            Some(Command::JumpBottom)
        } else if c == ' ' {
            Some(Command::ToggleSelect)
        } else {
            None
        },
        Key::Esc => Some(Command::Quit),
        Key::Down => Some(Command::CursorDown),
        Key::Up => Some(Command::CursorUp),
        Key::Home => Some(Command::JumpTop),
        Key::End => Some(Command::JumpBottom),
        Key::Enter => Some(Command::ToggleSelect),
        Key::Other => None,
    }
}

/// The command bound to `key`, if any.
pub fn command_for(key: Key) -> (command: Option<Command>)
    ensures
        command == command_of(key),
{
    match key {
        Key::Char(c) => {
            if c == 'q' {
                Some(Command::Quit)
            } else if c == 'h' {
                Some(Command::ExitDir)
            } else if c == 'l' {
                Some(Command::EnterDirOrToggle)
            } else if c == 'j' {
                Some(Command::CursorDown)
            } else if c == 'k' {
                Some(Command::CursorUp)
            } else if c == 'g' {
                Some(Command::JumpTop)
            } else if c == 'G' {
                Some(Command::JumpBottom)
            } else if c == ' ' {
                Some(Command::ToggleSelect)
            } else {
                None
            }
        },
        Key::Esc => Some(Command::Quit),
        Key::Down => Some(Command::CursorDown),
        Key::Up => Some(Command::CursorUp),
        Key::Home => Some(Command::JumpTop),
        Key::End => Some(Command::JumpBottom),
        Key::Enter => Some(Command::ToggleSelect),
        Key::Other => None,
    }
}

/// The movement that a command makes, if it is a cursor command.
pub open spec fn motion_of(command: Command) -> Option<Motion> {
    match command {
        Command::CursorDown => Some(Motion::Down),
        Command::CursorUp => Some(Motion::Up),
        Command::JumpTop => Some(Motion::Top),
        Command::JumpBottom => Some(Motion::Bottom),
        _ => None,
    }
}

/// What a command needs from the file system in the given state. Entering
/// falls back to toggling where the cursor is on something that cannot be
/// entered.
pub open spec fn wanted_by(app: App, command: Command) -> Wanted {
    match command {
        Command::ExitDir => app.wanted_on_exit(),
        Command::EnterDirOrToggle => match app.wanted_on_enter() {
            Wanted::Nothing => app.wanted_on_select(),
            wanted => wanted,
        },
        Command::ToggleSelect => app.wanted_on_select(),
        _ => Wanted::Nothing,
    }
}

/// The movement that an optional command makes, if it is a cursor command.
pub open spec fn motion_in(command: Option<Command>) -> Option<Motion> {
    match command {
        Some(c) => motion_of(c),
        None => None,
    }
}

/// What carrying out a command does: quitting sets the flag, a cursor
/// command moves the cursor within the listing, and every other command
/// leaves the state alone and says what the file system has to supply. No
/// command at all does nothing.
pub open spec fn carried_out(
    before: App,
    command: Option<Command>,
    after: App,
    request: Request,
) -> bool {
    &&& request@ == (match command {
        Some(c) => wanted_by(before, c),
        None => Wanted::Nothing,
    })
    &&& after.pwd.wf()
    &&& after.pwd.items == before.pwd.items
    &&& after.pwd.cursor() == (match motion_in(command) {
        Some(motion) => moved(before.pwd.cursor(), before.pwd.items@.len(), motion),
        None => before.pwd.cursor(),
    })
    &&& after.quit == (before.quit || command == Some(Command::Quit))
    &&& after.cwd == before.cwd
    &&& after.selected_files == before.selected_files
    &&& after.tag_sum == before.tag_sum
    &&& after.state == before.state
}

/// The command of an input event: that of its key, if it is a key press
/// and the key is bound.
pub open spec fn command_in(event: Option<Key>) -> Option<Command> {
    match event {
        Some(key) => command_of(key),
        None => None,
    }
}

/// Carries out one command as far as the state alone allows.
pub fn handle_command(command: Command, app: &mut App) -> (request: Request)
    requires
        old(app).pwd.wf(),
    ensures
        carried_out(*old(app), Some(command), *final(app), request),
{
    match command {
        Command::Quit => {
            app.quit = true;
            Request::Nothing
        },
        Command::ExitDir => app.exit_dir(),
        Command::EnterDirOrToggle => {
            match app.enter_dir() {
                Request::Nothing => app.select(),
                request => request,
            }
        },
        Command::CursorDown => {
            app.list_down();
            Request::Nothing
        },
        Command::CursorUp => {
            app.list_up();
            Request::Nothing
        },
        Command::JumpTop => {
            app.jump_to_list_top();
            Request::Nothing
        },
        Command::JumpBottom => {
            app.jump_to_list_bottom();
            Request::Nothing
        },
        Command::ToggleSelect => app.select(),
    }
}

/// Carries out the command bound to `key`; a key without a command does
/// nothing.
pub fn handle_file_navigation_events(key: Key, app: &mut App) -> (request: Request)
    requires
        old(app).pwd.wf(),
    ensures
        carried_out(*old(app), command_of(key), *final(app), request),
{
    match command_for(key) {
        Some(command) => handle_command(command, app),
        None => Request::Nothing,
    }
}

/// Handles one input event: a key press is carried out, anything else is
/// passed over.
pub fn handle_events(event: Option<Key>, app: &mut App) -> (request: Request)
    requires
        old(app).pwd.wf(),
    ensures
        carried_out(*old(app), command_in(event), *final(app), request),
{
    match event {
        Some(key) => match app.state {
            AppState::FileNavigation => handle_file_navigation_events(key, app),
        },
        None => Request::Nothing,
    }
}

/// Handles one input event on a state of which nothing is known: the
/// state is tested first, and the event is handled only if the cursor is
/// within the listing and no path is selected twice. On a state that fails
/// the test nothing is done, and `None` says so.
pub fn dispatch(event: Option<Key>, app: &mut App) -> (outcome: Option<Request>)
    ensures
        match outcome {
            Some(request) => {
                &&& old(app).pwd.wf()
                &&& distinct_paths(old(app).selected_files@)
                &&& carried_out(*old(app), command_in(event), *final(app), request)
            },
            None => {
                &&& !(old(app).pwd.wf() && distinct_paths(old(app).selected_files@))
                &&& *final(app) == *old(app)
            },
        },
{
    if app.is_valid() {
        Some(handle_events(event, app))
    } else {
        None
    }
}

} // verus!
