use rime::app::{Answer, App, AppState, FilesystemError, Request};
use rime::events::{
    command_for, dispatch, handle_command, handle_events, handle_file_navigation_events,
};
use rime::events::{Command, Key};
use rime::listing::{Entry, Kind};
use rime::selection::Selected;
use rime::tags::{Content, Frame, Tag};

fn row(path: &str, kind: Kind) -> Entry {
    Entry { path: path.as_bytes().to_vec(), kind }
}

fn music() -> Vec<Entry> {
    vec![
        row("/music/b.mp3", Kind::File),
        row("/music/rock", Kind::Directory),
        row("/music/a.mp3", Kind::File),
    ]
}

fn rock() -> Vec<Entry> {
    vec![row("/music/rock/r.mp3", Kind::File)]
}

fn song(path: &str, title: &str) -> Selected {
    Selected {
        path: path.as_bytes().to_vec(),
        is_file: true,
        tag: Some(Tag {
            frames: vec![Frame {
                id: "TIT2".to_string(),
                content: Content::Text(title.to_string()),
            }],
        }),
    }
}

fn rows_of(app: &App) -> Vec<(Vec<u8>, Kind)> {
    app.pwd.items.iter().map(|e| (e.path.clone(), e.kind)).collect()
}

fn selected_paths(app: &App) -> Vec<Vec<u8>> {
    let mut out: Vec<Vec<u8>> = app.selected_files.iter().map(|e| e.path.clone()).collect();
    out.sort();
    out
}

fn summary_of(app: &App) -> Vec<(String, String)> {
    app.tag_sum.iter().map(|r| (r.field.clone(), r.value.clone())).collect()
}

#[test]
fn default_lists_the_working_directory() {
    let app = App::default(b"/music".to_vec(), music());
    assert!(!app.quit);
    assert!(matches!(app.state, AppState::FileNavigation));
    assert_eq!(
        rows_of(&app),
        vec![
            (b"..".to_vec(), Kind::Parent),
            (b"/music/rock".to_vec(), Kind::Directory),
            (b"/music/a.mp3".to_vec(), Kind::File),
            (b"/music/b.mp3".to_vec(), Kind::File),
        ]
    );
    assert_eq!(app.pwd.get_index(), Some(0));
    assert!(app.selected_files.is_empty());
    assert_eq!(app.tag_sum.len(), 14);
    assert!(app.tag_sum.iter().all(|r| r.value == "<none>"));
    assert_eq!(app.num_selected_files(), 0);
}

#[test]
fn default_at_a_root_without_entries_has_no_cursor() {
    let app = App::default(b"/".to_vec(), Vec::new());
    assert!(app.pwd.is_empty());
    assert_eq!(app.pwd.get_index(), None);
    assert!(matches!(app.exit_dir(), Request::Nothing));
    assert!(matches!(app.enter_dir(), Request::Nothing));
    assert!(matches!(app.select(), Request::Nothing));
}

#[test]
fn cursor_commands_clamp() {
    let mut app = App::default(b"/music".to_vec(), music());
    app.list_up();
    assert_eq!(app.pwd.get_index(), Some(0));
    app.list_down();
    app.list_down();
    assert_eq!(app.pwd.get_index(), Some(2));
    app.list_down();
    app.list_down();
    assert_eq!(app.pwd.get_index(), Some(3));
    app.jump_to_list_top();
    assert_eq!(app.pwd.get_index(), Some(0));
    app.jump_to_list_bottom();
    assert_eq!(app.pwd.get_index(), Some(3));
    app.list_up();
    assert_eq!(app.pwd.get_index(), Some(2));
}

#[test]
fn exit_dir_asks_for_the_parent_only_where_there_is_one() {
    let app = App::default(b"/music".to_vec(), music());
    assert!(matches!(app.exit_dir(), Request::Enter(p) if p == b"/".to_vec()));
    let app = App::default(b"/".to_vec(), music());
    assert!(matches!(app.exit_dir(), Request::Nothing));
}

#[test]
fn enter_dir_follows_the_cursor() {
    let mut app = App::default(b"/music".to_vec(), music());
    assert!(matches!(app.enter_dir(), Request::Enter(p) if p == b"/".to_vec()));
    app.list_down();
    assert!(matches!(app.enter_dir(), Request::Enter(p) if p == b"/music/rock".to_vec()));
    app.list_down();
    assert!(matches!(app.enter_dir(), Request::Nothing));
}

#[test]
fn select_ignores_the_parent_entry() {
    let mut app = App::default(b"/music".to_vec(), music());
    assert!(matches!(app.select(), Request::Nothing));
    app.list_down();
    assert!(matches!(app.select(), Request::Toggle(p) if p == b"/music/rock".to_vec()));
    app.list_down();
    assert!(matches!(app.select(), Request::Toggle(p) if p == b"/music/a.mp3".to_vec()));
}

#[test]
fn select_at_a_root_toggles_the_first_row() {
    let app = App::default(b"/".to_vec(), music());
    assert!(matches!(app.select(), Request::Toggle(p) if p == b"/music/rock".to_vec()));
}

#[test]
fn toggle_select_path_updates_selection_and_summary() {
    let mut app = App::default(b"/music".to_vec(), music());
    app.toggle_select_path(vec![song("/music/a.mp3", "Song1")]);
    assert_eq!(selected_paths(&app), vec![b"/music/a.mp3".to_vec()]);
    assert!(app.is_selected(&b"/music/a.mp3".to_vec()));
    assert!(!app.is_selected(&b"/music/b.mp3".to_vec()));
    assert_eq!(app.num_selected_files(), 1);
    assert_eq!(app.tag_sum[4].field, "TIT2");
    assert_eq!(app.tag_sum[4].value, "Song1");
    app.toggle_select_path(vec![song("/music/b.mp3", "Song2")]);
    assert_eq!(app.tag_sum[4].value, "<multiple>");
    assert_eq!(app.num_selected_files(), 2);
    app.toggle_select_path(vec![song("/music/a.mp3", "Song1")]);
    assert_eq!(app.tag_sum[4].value, "Song2");
    assert_eq!(selected_paths(&app), vec![b"/music/b.mp3".to_vec()]);
}

#[test]
fn toggling_a_directory_counts_only_its_files() {
    let mut app = App::default(b"/music".to_vec(), music());
    let marker = Selected { path: b"/music/rock".to_vec(), is_file: false, tag: None };
    app.toggle_select_path(vec![marker, song("/music/rock/r.mp3", "R")]);
    assert_eq!(app.selected_files.len(), 2);
    assert_eq!(app.num_selected_files(), 1);
    assert!(app.is_selected(&b"/music/rock".to_vec()));
}

#[test]
fn clear_gives_the_summary_of_a_fresh_selection() {
    let fresh = App::default(b"/music".to_vec(), music());
    let mut app = App::default(b"/music".to_vec(), music());
    app.toggle_select_path(vec![song("/music/a.mp3", "Song1"), song("/music/b.mp3", "Song2")]);
    assert_ne!(summary_of(&app), summary_of(&fresh));
    app.clear_selected_files();
    assert!(app.selected_files.is_empty());
    assert_eq!(summary_of(&app), summary_of(&fresh));
    assert_eq!(app.num_selected_files(), 0);
}

#[test]
fn update_tag_sum_recomputes_from_the_selection() {
    let mut app = App::default(b"/music".to_vec(), music());
    app.selected_files.push(song("/music/a.mp3", "Direct"));
    assert_eq!(app.tag_sum[4].value, "<none>");
    app.update_tag_sum();
    assert_eq!(app.tag_sum[4].value, "Direct");
}

#[test]
fn entering_then_leaving_restores_the_listing_and_keeps_the_selection() {
    let mut app = App::default(b"/music".to_vec(), music());
    app.toggle_select_path(vec![song("/music/a.mp3", "Song1")]);
    let listing_before = rows_of(&app);
    let selection_before = selected_paths(&app);
    let summary_before = summary_of(&app);
    app.list_down();
    assert!(matches!(app.enter_dir(), Request::Enter(_)));
    app.refresh_pwd(b"/music/rock".to_vec(), rock());
    assert_eq!(
        rows_of(&app),
        vec![(b"..".to_vec(), Kind::Parent), (b"/music/rock/r.mp3".to_vec(), Kind::File)]
    );
    assert_eq!(app.pwd.get_index(), Some(0));
    assert_eq!(app.cwd, b"/music/rock".to_vec());
    assert!(matches!(app.exit_dir(), Request::Enter(p) if p == b"/music".to_vec()));
    app.refresh_pwd(b"/music".to_vec(), music());
    assert_eq!(app.cwd, b"/music".to_vec());
    assert_eq!(rows_of(&app), listing_before);
    assert_eq!(app.pwd.get_index(), Some(0));
    assert_eq!(selected_paths(&app), selection_before);
    assert_eq!(summary_of(&app), summary_before);
}

#[test]
fn on_tick_changes_nothing() {
    let mut app = App::default(b"/music".to_vec(), music());
    app.list_down();
    app.on_tick();
    assert_eq!(app.pwd.get_index(), Some(1));
    assert!(!app.quit);
    assert!(app.selected_files.is_empty());
}

#[test]
fn keys_are_bound_to_commands() {
    assert_eq!(command_for(Key::Char('q')), Some(Command::Quit));
    assert_eq!(command_for(Key::Esc), Some(Command::Quit));
    assert_eq!(command_for(Key::Char('h')), Some(Command::ExitDir));
    assert_eq!(command_for(Key::Char('l')), Some(Command::EnterDirOrToggle));
    assert_eq!(command_for(Key::Char('j')), Some(Command::CursorDown));
    assert_eq!(command_for(Key::Down), Some(Command::CursorDown));
    assert_eq!(command_for(Key::Char('k')), Some(Command::CursorUp));
    assert_eq!(command_for(Key::Up), Some(Command::CursorUp));
    assert_eq!(command_for(Key::Char('g')), Some(Command::JumpTop));
    assert_eq!(command_for(Key::Home), Some(Command::JumpTop));
    assert_eq!(command_for(Key::Char('G')), Some(Command::JumpBottom));
    assert_eq!(command_for(Key::End), Some(Command::JumpBottom));
    assert_eq!(command_for(Key::Char(' ')), Some(Command::ToggleSelect));
    assert_eq!(command_for(Key::Enter), Some(Command::ToggleSelect));
    assert_eq!(command_for(Key::Char('x')), None);
    assert_eq!(command_for(Key::Char('Q')), None);
    assert_eq!(command_for(Key::Other), None);
}

#[test]
fn quit_sets_the_flag_and_nothing_else() {
    let mut app = App::default(b"/music".to_vec(), music());
    app.list_down();
    assert!(matches!(handle_command(Command::Quit, &mut app), Request::Nothing));
    assert!(app.quit);
    assert_eq!(app.pwd.get_index(), Some(1));
    assert!(app.selected_files.is_empty());
}

#[test]
fn commands_move_the_cursor_or_ask_for_work() {
    let mut app = App::default(b"/music".to_vec(), music());
    assert!(matches!(handle_command(Command::ToggleSelect, &mut app), Request::Nothing));
    assert!(matches!(handle_command(Command::EnterDirOrToggle, &mut app), Request::Enter(p) if p == b"/".to_vec()));
    assert!(matches!(handle_command(Command::CursorDown, &mut app), Request::Nothing));
    assert_eq!(app.pwd.get_index(), Some(1));
    assert!(matches!(
        handle_command(Command::EnterDirOrToggle, &mut app),
        Request::Enter(p) if p == b"/music/rock".to_vec()
    ));
    assert!(matches!(
        handle_command(Command::ToggleSelect, &mut app),
        Request::Toggle(p) if p == b"/music/rock".to_vec()
    ));
    assert!(matches!(handle_command(Command::JumpBottom, &mut app), Request::Nothing));
    assert_eq!(app.pwd.get_index(), Some(3));
    assert!(matches!(
        handle_command(Command::EnterDirOrToggle, &mut app),
        Request::Toggle(p) if p == b"/music/b.mp3".to_vec()
    ));
    assert!(matches!(handle_command(Command::CursorUp, &mut app), Request::Nothing));
    assert_eq!(app.pwd.get_index(), Some(2));
    assert!(matches!(handle_command(Command::JumpTop, &mut app), Request::Nothing));
    assert_eq!(app.pwd.get_index(), Some(0));
    assert!(matches!(handle_command(Command::ExitDir, &mut app), Request::Enter(p) if p == b"/".to_vec()));
    assert!(!app.quit);
}

#[test]
fn key_events_are_carried_out() {
    let mut app = App::default(b"/music".to_vec(), music());
    assert!(matches!(handle_file_navigation_events(Key::Char('j'), &mut app), Request::Nothing));
    assert_eq!(app.pwd.get_index(), Some(1));
    assert!(matches!(handle_file_navigation_events(Key::Char('x'), &mut app), Request::Nothing));
    assert_eq!(app.pwd.get_index(), Some(1));
    assert!(matches!(
        handle_events(Some(Key::Enter), &mut app),
        Request::Toggle(p) if p == b"/music/rock".to_vec()
    ));
    assert!(matches!(handle_events(None, &mut app), Request::Nothing));
    assert_eq!(app.pwd.get_index(), Some(1));
    assert!(matches!(handle_events(Some(Key::Char('h')), &mut app), Request::Enter(p) if p == b"/".to_vec()));
    assert!(matches!(handle_events(Some(Key::Esc), &mut app), Request::Nothing));
    assert!(app.quit);
}

#[test]
fn complete_takes_a_listing() {
    let mut app = App::default(b"/music".to_vec(), music());
    app.toggle_select_path(vec![song("/music/a.mp3", "Song1")]);
    app.jump_to_list_bottom();
    let result = app.complete(Answer::Listed { cwd: b"/music/rock".to_vec(), entries: rock() });
    assert_eq!(result, Ok(()));
    assert_eq!(
        rows_of(&app),
        vec![(b"..".to_vec(), Kind::Parent), (b"/music/rock/r.mp3".to_vec(), Kind::File)]
    );
    assert_eq!(app.pwd.get_index(), Some(0));
    assert_eq!(app.cwd, b"/music/rock".to_vec());
    assert_eq!(selected_paths(&app), vec![b"/music/a.mp3".to_vec()]);
    assert_eq!(app.tag_sum[4].value, "Song1");
}

#[test]
fn complete_takes_a_walk() {
    let mut app = App::default(b"/music".to_vec(), music());
    app.list_down();
    let result = app.complete(Answer::Walked(vec![song("/music/b.mp3", "Song2")]));
    assert_eq!(result, Ok(()));
    assert_eq!(selected_paths(&app), vec![b"/music/b.mp3".to_vec()]);
    assert_eq!(app.tag_sum[4].value, "Song2");
    assert_eq!(app.pwd.get_index(), Some(1));
}

#[test]
fn a_failed_enumeration_changes_nothing() {
    let mut app = App::default(b"/music".to_vec(), music());
    app.toggle_select_path(vec![song("/music/a.mp3", "Song1")]);
    app.list_down();
    let listing_before = rows_of(&app);
    let summary_before = summary_of(&app);
    let result = app.complete(Answer::Failed(FilesystemError::Enumeration));
    assert_eq!(result, Err(FilesystemError::Enumeration));
    assert_eq!(app.cwd, b"/music".to_vec());
    assert_eq!(rows_of(&app), listing_before);
    assert_eq!(app.pwd.get_index(), Some(1));
    assert_eq!(selected_paths(&app), vec![b"/music/a.mp3".to_vec()]);
    assert_eq!(summary_of(&app), summary_before);
    assert!(!app.quit);
}

#[test]
fn a_failed_change_of_directory_changes_nothing() {
    let mut app = App::default(b"/music".to_vec(), music());
    let listing_before = rows_of(&app);
    let result = app.complete(Answer::Failed(FilesystemError::WorkingDirectory));
    assert_eq!(result, Err(FilesystemError::WorkingDirectory));
    assert_eq!(rows_of(&app), listing_before);
    assert_eq!(app.pwd.get_index(), Some(0));
    assert!(app.selected_files.is_empty());
}

#[test]
fn is_valid_tells_a_sound_state_from_a_broken_one() {
    let mut app = App::default(b"/music".to_vec(), music());
    assert!(app.is_valid());
    app.toggle_select_path(vec![song("/music/a.mp3", "One"), song("/music/b.mp3", "Two")]);
    assert!(app.is_valid());
    app.selected_files.push(song("/music/a.mp3", "Again"));
    assert!(!app.is_valid());
    app.selected_files.pop();
    assert!(app.is_valid());
    app.pwd.select(Some(9));
    assert!(!app.is_valid());
    app.pwd.select(None);
    assert!(!app.is_valid());
    app.pwd.select(Some(3));
    assert!(app.is_valid());
    let empty = App::default(b"/".to_vec(), Vec::new());
    assert!(empty.is_valid());
}

#[test]
fn a_root_is_listed_without_the_parent_entry() {
    let app = App::default(b"/".to_vec(), music());
    assert_eq!(
        rows_of(&app),
        vec![
            (b"/music/rock".to_vec(), Kind::Directory),
            (b"/music/a.mp3".to_vec(), Kind::File),
            (b"/music/b.mp3".to_vec(), Kind::File),
        ]
    );
    assert!(matches!(app.exit_dir(), Request::Nothing));
    assert!(matches!(app.enter_dir(), Request::Enter(p) if p == b"/music/rock".to_vec()));
}

#[test]
fn leaving_pops_one_segment() {
    let mut app = App::default(b"/music/rock/live".to_vec(), Vec::new());
    assert!(matches!(app.exit_dir(), Request::Enter(p) if p == b"/music/rock".to_vec()));
    assert!(matches!(app.enter_dir(), Request::Enter(p) if p == b"/music/rock".to_vec()));
    app.refresh_pwd(b"/music".to_vec(), Vec::new());
    assert!(matches!(app.exit_dir(), Request::Enter(p) if p == b"/".to_vec()));
    app.refresh_pwd(b"/".to_vec(), Vec::new());
    assert!(matches!(app.exit_dir(), Request::Nothing));
    assert!(app.pwd.is_empty());
}

#[test]
fn dispatch_handles_events_on_a_sound_state() {
    let mut app = App::default(b"/music".to_vec(), music());
    assert!(matches!(dispatch(Some(Key::Char('j')), &mut app), Some(Request::Nothing)));
    assert_eq!(app.pwd.get_index(), Some(1));
    assert!(matches!(
        dispatch(Some(Key::Char('l')), &mut app),
        Some(Request::Enter(p)) if p == b"/music/rock".to_vec()
    ));
    assert!(matches!(dispatch(None, &mut app), Some(Request::Nothing)));
    assert!(matches!(dispatch(Some(Key::Char('q')), &mut app), Some(Request::Nothing)));
    assert!(app.quit);
}

#[test]
fn dispatch_refuses_a_broken_state() {
    let mut app = App::default(b"/music".to_vec(), music());
    app.pwd.select(Some(17));
    assert!(dispatch(Some(Key::Char('k')), &mut app).is_none());
    assert_eq!(app.pwd.get_index(), Some(17));
    assert!(dispatch(Some(Key::Char('q')), &mut app).is_none());
    assert!(!app.quit);
    app.pwd.select(Some(0));
    app.selected_files.push(song("/music/a.mp3", "One"));
    app.selected_files.push(song("/music/a.mp3", "Two"));
    assert!(dispatch(Some(Key::Char('j')), &mut app).is_none());
    assert_eq!(app.pwd.get_index(), Some(0));
    assert_eq!(app.selected_files.len(), 2);
}
