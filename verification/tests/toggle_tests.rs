use rime::listing::{Entry, Kind};
use rime::selection::Selected;
use rime::tags::{Content, Frame, Tag};
use rime::toggle::{Probe, ToggleJob};

fn child(path: &str, kind: Kind) -> Entry {
    Entry { path: path.as_bytes().to_vec(), kind }
}

fn tagged(title: &str) -> Option<Tag> {
    Some(Tag {
        frames: vec![Frame { id: "TIT2".to_string(), content: Content::Text(title.to_string()) }],
    })
}

// A small tree: /m holds the directory /m/sub and the files /m/a.mp3 and
// /m/z.mp3; /m/sub holds /m/sub/s.mp3 and a text file.
fn answer(path: &[u8]) -> Probe {
    match path {
        b"/m" => Probe::Directory(vec![
            child("/m/z.mp3", Kind::File),
            child("/m/sub", Kind::Directory),
            child("/m/a.mp3", Kind::File),
            child("/m/readme.txt", Kind::File),
        ]),
        b"/m/sub" => Probe::Directory(vec![
            child("/m/sub/notes.txt", Kind::File),
            child("/m/sub/s.mp3", Kind::File),
        ]),
        b"/m/a.mp3" => Probe::File(tagged("A")),
        b"/m/z.mp3" => Probe::File(None),
        b"/m/sub/s.mp3" => Probe::File(tagged("S")),
        _ => Probe::Other,
    }
}

fn run(root: &str) -> Vec<Selected> {
    let mut job = ToggleJob::new(root.as_bytes().to_vec());
    let mut steps = 0;
    while let Some(path) = job.next_path() {
        job.advance(answer(&path));
        steps += 1;
        assert!(steps < 100);
    }
    assert!(job.is_done());
    job.walk
}

fn walked(walk: &[Selected]) -> Vec<(String, bool, bool)> {
    walk.iter()
        .map(|e| (String::from_utf8(e.path.clone()).unwrap(), e.is_file, e.tag.is_some()))
        .collect()
}

#[test]
fn new_job_waits_for_its_root() {
    let job = ToggleJob::new(b"/m".to_vec());
    assert!(!job.is_done());
    assert_eq!(job.next_path(), Some(b"/m".to_vec()));
    assert!(job.walk.is_empty());
    assert_eq!(job.pending, vec![b"/m".to_vec()]);
}

#[test]
fn a_file_is_walked_alone() {
    let walk = run("/m/a.mp3");
    assert_eq!(walked(&walk), vec![("/m/a.mp3".to_string(), true, true)]);
}

#[test]
fn a_file_without_tag_is_walked_with_no_tag() {
    let walk = run("/m/z.mp3");
    assert_eq!(walked(&walk), vec![("/m/z.mp3".to_string(), true, false)]);
}

#[test]
fn something_else_is_walked_as_no_file() {
    let walk = run("/dev/null");
    assert_eq!(walked(&walk), vec![("/dev/null".to_string(), false, false)]);
}

#[test]
fn a_directory_is_walked_depth_first_in_listing_order() {
    let walk = run("/m");
    assert_eq!(
        walked(&walk),
        vec![
            ("/m".to_string(), false, false),
            ("/m/sub".to_string(), false, false),
            ("/m/sub/s.mp3".to_string(), true, true),
            ("/m/a.mp3".to_string(), true, true),
            ("/m/z.mp3".to_string(), true, false),
        ]
    );
}

#[test]
fn advance_puts_children_before_waiting_paths() {
    let mut job = ToggleJob::new(b"/m".to_vec());
    job.advance(answer(b"/m"));
    assert_eq!(job.pending, vec![b"/m/sub".to_vec(), b"/m/a.mp3".to_vec(), b"/m/z.mp3".to_vec()]);
    assert_eq!(job.walk.len(), 1);
    job.advance(answer(b"/m/sub"));
    assert_eq!(
        job.pending,
        vec![b"/m/sub/s.mp3".to_vec(), b"/m/a.mp3".to_vec(), b"/m/z.mp3".to_vec()]
    );
    job.advance(answer(b"/m/sub/s.mp3"));
    assert_eq!(job.pending, vec![b"/m/a.mp3".to_vec(), b"/m/z.mp3".to_vec()]);
    assert_eq!(job.walk.len(), 3);
}

#[test]
fn an_empty_directory_is_walked_alone() {
    let mut job = ToggleJob::new(b"/empty".to_vec());
    job.advance(Probe::Directory(Vec::new()));
    assert!(job.is_done());
    assert_eq!(job.next_path(), None);
    assert_eq!(walked(&job.walk), vec![("/empty".to_string(), false, false)]);
}

#[test]
fn toggling_a_subtree_twice_restores_the_selection() {
    let mut app = rime::app::App::default(b"/".to_vec(), Vec::new());
    app.toggle_select_path(run("/m/a.mp3"));
    app.toggle_select_path(run("/elsewhere"));
    let before: Vec<Vec<u8>> = app.selected_files.iter().map(|e| e.path.clone()).collect();
    assert_eq!(before, vec![b"/m/a.mp3".to_vec(), b"/elsewhere".to_vec()]);

    app.toggle_select_path(run("/m"));
    let mut flipped: Vec<Vec<u8>> = app.selected_files.iter().map(|e| e.path.clone()).collect();
    flipped.sort();
    assert_eq!(
        flipped,
        vec![
            b"/elsewhere".to_vec(),
            b"/m".to_vec(),
            b"/m/sub".to_vec(),
            b"/m/sub/s.mp3".to_vec(),
            b"/m/z.mp3".to_vec(),
        ]
    );
    assert_eq!(app.num_selected_files(), 2);
    assert_eq!(app.tag_sum[4].value, "S");

    app.toggle_select_path(run("/m"));
    let mut after: Vec<Vec<u8>> = app.selected_files.iter().map(|e| e.path.clone()).collect();
    after.sort();
    assert_eq!(after, vec![b"/elsewhere".to_vec(), b"/m/a.mp3".to_vec()]);
    assert_eq!(app.num_selected_files(), 1);
    assert_eq!(app.tag_sum[4].value, "A");
}
