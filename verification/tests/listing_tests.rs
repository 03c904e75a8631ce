use rime::listing::{list, Entry, Kind};
use rime::path::{copy_path, is_audio_path, parent_of, path_less, same_path};

fn raw(path: &str, kind: Kind) -> Entry {
    Entry { path: path.as_bytes().to_vec(), kind }
}

fn shown(entries: &[Entry]) -> Vec<(String, Kind)> {
    entries
        .iter()
        .map(|e| (String::from_utf8(e.path.clone()).unwrap(), e.kind))
        .collect()
}

#[test]
fn listing_puts_directories_before_files_each_ascending() {
    let out = list(
        true,
        vec![
            raw("/m/b.mp3", Kind::File),
            raw("/m/zeta", Kind::Directory),
            raw("/m/a.mp3", Kind::File),
            raw("/m/alpha", Kind::Directory),
        ],
    );
    assert_eq!(
        shown(&out),
        vec![
            ("..".to_string(), Kind::Parent),
            ("/m/alpha".to_string(), Kind::Directory),
            ("/m/zeta".to_string(), Kind::Directory),
            ("/m/a.mp3".to_string(), Kind::File),
            ("/m/b.mp3".to_string(), Kind::File),
        ]
    );
}

#[test]
fn listing_without_parent_has_no_pseudo_entry() {
    let out = list(false, vec![raw("/b", Kind::Directory), raw("/a", Kind::Directory)]);
    assert_eq!(
        shown(&out),
        vec![("/a".to_string(), Kind::Directory), ("/b".to_string(), Kind::Directory)]
    );
}

#[test]
fn listing_of_nothing_is_only_the_parent() {
    let out = list(true, Vec::new());
    assert_eq!(shown(&out), vec![("..".to_string(), Kind::Parent)]);
    let out = list(false, Vec::new());
    assert!(out.is_empty());
}

#[test]
fn listing_leaves_out_other_extensions_and_kinds() {
    let out = list(
        false,
        vec![
            raw("/m/notes.txt", Kind::File),
            raw("/m/song.mp3", Kind::File),
            raw("/m/SONG.MP3", Kind::File),
            raw("/m/.mp3", Kind::File),
            raw("/m/mp3", Kind::File),
            raw("/m/link", Kind::Other),
            raw("/m/fake", Kind::Parent),
            raw("/m/dir.txt", Kind::Directory),
        ],
    );
    assert_eq!(
        shown(&out),
        vec![
            ("/m/dir.txt".to_string(), Kind::Directory),
            ("/m/song.mp3".to_string(), Kind::File),
        ]
    );
}

#[test]
fn listing_keeps_repeated_paths() {
    let out = list(false, vec![raw("/a.mp3", Kind::File), raw("/a.mp3", Kind::File)]);
    assert_eq!(out.len(), 2);
}

#[test]
fn listing_orders_by_bytes() {
    let out = list(
        false,
        vec![
            raw("/m/b", Kind::Directory),
            raw("/m/B", Kind::Directory),
            raw("/m/ab", Kind::Directory),
            raw("/m/a", Kind::Directory),
        ],
    );
    assert_eq!(
        shown(&out),
        vec![
            ("/m/B".to_string(), Kind::Directory),
            ("/m/a".to_string(), Kind::Directory),
            ("/m/ab".to_string(), Kind::Directory),
            ("/m/b".to_string(), Kind::Directory),
        ]
    );
}

#[test]
fn path_order_is_lexicographic() {
    let a = b"/a".to_vec();
    let ab = b"/ab".to_vec();
    let b = b"/b".to_vec();
    let empty: Vec<u8> = Vec::new();
    assert!(path_less(&a, &ab));
    assert!(!path_less(&ab, &a));
    assert!(path_less(&ab, &b));
    assert!(!path_less(&b, &ab));
    assert!(!path_less(&a, &a));
    assert!(path_less(&empty, &a));
    assert!(!path_less(&a, &empty));
    assert!(!path_less(&empty, &empty));
}

#[test]
fn same_path_compares_every_byte() {
    assert!(same_path(&b"/a/b".to_vec(), &b"/a/b".to_vec()));
    assert!(!same_path(&b"/a/b".to_vec(), &b"/a/c".to_vec()));
    assert!(!same_path(&b"/a/b".to_vec(), &b"/a/bc".to_vec()));
    assert!(same_path(&Vec::new(), &Vec::new()));
}

#[test]
fn copy_path_gives_the_same_bytes() {
    let p = b"/music/album".to_vec();
    assert_eq!(copy_path(&p), p);
    assert_eq!(copy_path(&Vec::new()), Vec::<u8>::new());
}

#[test]
fn audio_extension_needs_a_stem() {
    assert!(is_audio_path(&b"/m/a.mp3".to_vec()));
    assert!(is_audio_path(&b"a.mp3".to_vec()));
    assert!(is_audio_path(&b"/m/..mp3".to_vec()));
    assert!(is_audio_path(&b"/m/a.b.mp3".to_vec()));
    assert!(!is_audio_path(&b"/m/.mp3".to_vec()));
    assert!(!is_audio_path(&b".mp3".to_vec()));
    assert!(!is_audio_path(&b"/m/a.MP3".to_vec()));
    assert!(!is_audio_path(&b"/m/a.mp4".to_vec()));
    assert!(!is_audio_path(&b"/m/amp3".to_vec()));
    assert!(!is_audio_path(&b"/m/a.mp3x".to_vec()));
    assert!(!is_audio_path(&Vec::new()));
}

#[test]
fn parent_of_pops_the_last_segment() {
    assert_eq!(parent_of(&b"/music/rock".to_vec()), Some(b"/music".to_vec()));
    assert_eq!(parent_of(&b"/music".to_vec()), Some(b"/".to_vec()));
    assert_eq!(parent_of(&b"/music/rock/a.mp3".to_vec()), Some(b"/music/rock".to_vec()));
    assert_eq!(parent_of(&b"/".to_vec()), None);
    assert_eq!(parent_of(&Vec::new()), None);
    assert_eq!(parent_of(&b"music".to_vec()), None);
}
