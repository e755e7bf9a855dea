use linktag::index::{AppState, IndexError};
use linktag::scan::{
    nested_tag_name, scan_items, scan_tags, DirEntry, EntryKind, PendingDir, ScanError, TagScan,
};

fn entry(file_name: &str, canonical: &str, is_dir: bool) -> DirEntry {
    DirEntry { file_name: file_name.to_string(), canonical: canonical.to_string(), is_dir }
}

fn sorted(mut v: Vec<String>) -> Vec<String> {
    v.sort();
    v
}

fn items_dir() -> Vec<DirEntry> {
    vec![
        entry("a.txt", "/d/all/a.txt", false),
        entry("b.txt", "/d/all/b.txt", false),
        entry("album", "/d/all/album", true),
        entry("far", "/elsewhere/far.txt", false),
    ]
}

/// What each directory below the tags root holds.
fn read(dir: &str) -> Vec<DirEntry> {
    match dir {
        "/d/tags" => vec![
            entry("fruit", "/d/tags/fruit", true),
            entry("stray", "/d/all/a.txt", false),
            entry("notes.txt", "/d/tags/notes.txt", false),
            entry("empty", "/d/tags/empty", true),
        ],
        "/d/tags/fruit" => vec![
            entry("a.txt", "/d/all/a.txt", false),
            entry("citrus", "/d/tags/fruit/citrus", true),
            entry("broken", "/d/all/gone.txt", false),
            entry("album", "/d/all/album", true),
        ],
        "/d/tags/fruit/citrus" => vec![
            entry("lemon", "/d/all/b.txt", false),
            entry("a.txt", "/d/all/a.txt", false),
            entry("up", "/d/tags/fruit", true),
        ],
        "/d/tags/empty" => vec![],
        other => panic!("not a directory of the tree: {}", other),
    }
}

fn scan_everything() -> AppState {
    let mut s = AppState::new("/d/tags");
    assert_eq!(scan_items(&mut s, &items_dir()), Ok(()));
    let mut scan = TagScan::new("/d/tags");
    let mut rounds = 0;
    while let Some(dir) = scan.next_dir() {
        let entries = read(&dir.path);
        scan_tags(&mut s, &mut scan, &dir, &entries);
        rounds += 1;
        assert!(rounds < 10);
    }
    s
}

#[test]
fn scan_items_registers_every_entry() {
    let mut s = AppState::new("tags");
    assert_eq!(scan_items(&mut s, &items_dir()), Ok(()));
    assert_eq!(
        sorted(s.items()),
        vec![
            "/d/all/a.txt".to_string(),
            "/d/all/album".to_string(),
            "/d/all/b.txt".to_string(),
            "/elsewhere/far.txt".to_string(),
        ]
    );
    assert_eq!(s.item_name("/d/all/album"), Some("album".to_string()));
    assert_eq!(s.item_name("/elsewhere/far.txt"), Some("far".to_string()));
    assert!(s.tags().is_empty());
    assert!(s.selection().is_empty());
}

#[test]
fn scan_items_of_empty_directory_adds_nothing() {
    let mut s = AppState::new("tags");
    assert_eq!(scan_items(&mut s, &vec![]), Ok(()));
    assert!(s.items().is_empty());
}

#[test]
fn scan_items_lets_the_last_entry_of_a_path_name_it() {
    let mut s = AppState::new("tags");
    let entries = vec![
        entry("a.txt", "/d/all/a.txt", false),
        entry("alias", "/d/all/a.txt", false),
    ];
    assert_eq!(scan_items(&mut s, &entries), Ok(()));
    assert_eq!(s.items(), vec!["/d/all/a.txt".to_string()]);
    assert_eq!(s.item_name("/d/all/a.txt"), Some("alias".to_string()));
}

#[test]
fn scan_items_reports_the_first_bad_entry_and_adds_nothing() {
    let mut s = AppState::new("tags");
    assert_eq!(s.add_tag("/d/tags/fruit", "fruit"), Ok(()));
    let entries = vec![
        entry("a.txt", "/d/all/a.txt", false),
        entry("b.txt", "all/b.txt", false),
        entry("", "/d/all/c.txt", false),
    ];
    assert_eq!(
        scan_items(&mut s, &entries),
        Err(ScanError { entry: 1, reason: IndexError::NotCanonical })
    );
    assert!(s.items().is_empty());
    let entries = vec![entry("a/b", "/d/all/a.txt", false)];
    assert_eq!(
        scan_items(&mut s, &entries),
        Err(ScanError { entry: 0, reason: IndexError::BadName })
    );
    let entries = vec![
        entry("a.txt", "/d/all/a.txt", false),
        entry("fruit", "/d/tags/fruit", true),
    ];
    assert_eq!(
        scan_items(&mut s, &entries),
        Err(ScanError { entry: 1, reason: IndexError::IsTag })
    );
    assert!(s.items().is_empty());
}

#[test]
fn classify_tells_members_tags_and_the_rest_apart() {
    let mut s = AppState::new("/d/tags");
    assert_eq!(scan_items(&mut s, &items_dir()), Ok(()));
    assert_eq!(s.add_tag("/d/tags/fruit", "fruit"), Ok(()));
    let f = "/d/tags/fruit";
    assert_eq!(s.classify(f, &entry("a.txt", "/d/all/a.txt", false)), EntryKind::Member);
    assert_eq!(s.classify(f, &entry("album", "/d/all/album", true)), EntryKind::Member);
    assert_eq!(s.classify("/d/tags", &entry("a.txt", "/d/all/a.txt", false)), EntryKind::Ignored);
    assert_eq!(s.classify(f, &entry("", "/d/all/a.txt", false)), EntryKind::Ignored);
    assert_eq!(s.classify(f, &entry("citrus", "/d/tags/fruit/citrus", true)), EntryKind::SubTag);
    assert_eq!(s.classify("/d/tags", &entry("new", "/d/tags/new", true)), EntryKind::SubTag);
    assert_eq!(s.classify("/d/tags", &entry("fruit", "/d/tags/fruit", true)), EntryKind::Ignored);
    assert_eq!(s.classify(f, &entry("odd", "tags/odd", true)), EntryKind::Ignored);
    assert_eq!(s.classify(f, &entry("gone", "/d/all/gone.txt", false)), EntryKind::Ignored);
    assert_eq!(s.classify(f, &entry("notes", "/d/tags/fruit/notes", false)), EntryKind::Ignored);
}

#[test]
fn nested_tag_names_keep_the_way_from_the_root() {
    assert_eq!(nested_tag_name("", "fruit"), "fruit");
    assert_eq!(nested_tag_name("fruit", "citrus"), "fruit/citrus");
    assert_eq!(nested_tag_name("fruit/citrus", "lemon"), "fruit/citrus/lemon");
}

#[test]
fn tag_scan_hands_out_the_root_first_and_ends() {
    let mut scan = TagScan::new("/d/tags");
    assert_eq!(
        scan.next_dir(),
        Some(PendingDir { path: "/d/tags".to_string(), name: String::new() })
    );
    assert_eq!(scan.next_dir(), None);
    assert_eq!(scan.next_dir(), None);
}

#[test]
fn scan_tags_registers_directories_and_puts_them_down() {
    let mut s = AppState::new("/d/tags");
    assert_eq!(scan_items(&mut s, &items_dir()), Ok(()));
    let mut scan = TagScan::new("/d/tags");
    let root = scan.next_dir().unwrap();
    scan_tags(&mut s, &mut scan, &root, &read("/d/tags"));
    assert_eq!(
        sorted(s.tags()),
        vec!["/d/tags/empty".to_string(), "/d/tags/fruit".to_string()]
    );
    // a link directly below the tags root belongs to no tag
    assert!(!s.item_has_tag("/d/all/a.txt", "/d/tags"));
    assert!(!s.has_tag("/d/tags"));
    // found last, read next
    assert_eq!(
        scan.next_dir(),
        Some(PendingDir { path: "/d/tags/empty".to_string(), name: "empty".to_string() })
    );
    assert_eq!(
        scan.next_dir(),
        Some(PendingDir { path: "/d/tags/fruit".to_string(), name: "fruit".to_string() })
    );
    assert_eq!(scan.next_dir(), None);
}

#[test]
fn scan_builds_the_whole_index() {
    let s = scan_everything();
    assert_eq!(
        sorted(s.tags()),
        vec![
            "/d/tags/empty".to_string(),
            "/d/tags/fruit".to_string(),
            "/d/tags/fruit/citrus".to_string(),
        ]
    );
    assert_eq!(s.tag_name("/d/tags/fruit"), Some("fruit".to_string()));
    assert_eq!(s.tag_name("/d/tags/fruit/citrus"), Some("fruit/citrus".to_string()));
    assert_eq!(s.tag_name("/d/tags/empty"), Some("empty".to_string()));

    assert_eq!(
        s.link_of("/d/tags/fruit", "/d/all/a.txt"),
        Some("/d/tags/fruit/a.txt".to_string())
    );
    // a link to an item that is a directory is a membership, not a tag
    assert_eq!(
        s.link_of("/d/tags/fruit", "/d/all/album"),
        Some("/d/tags/fruit/album".to_string())
    );
    assert!(!s.has_tag("/d/all/album"));
    assert_eq!(
        s.link_of("/d/tags/fruit/citrus", "/d/all/b.txt"),
        Some("/d/tags/fruit/citrus/lemon".to_string())
    );
    assert_eq!(
        s.link_of("/d/tags/fruit/citrus", "/d/all/a.txt"),
        Some("/d/tags/fruit/citrus/a.txt".to_string())
    );
    // membership is kept per directory
    assert!(!s.is_tagged("/d/tags/fruit", "/d/all/b.txt"));
    assert!(!s.is_tagged("/d/tags/empty", "/d/all/a.txt"));
    assert!(!s.is_tagged("/d/tags/fruit", "/elsewhere/far.txt"));

    // each membership is known on both sides
    for item in s.items() {
        for tag in s.tags() {
            assert_eq!(s.item_has_tag(&item, &tag), s.is_tagged(&tag, &item));
        }
    }
    assert!(s.item_has_tag("/d/all/a.txt", "/d/tags/fruit"));
    assert!(s.item_has_tag("/d/all/a.txt", "/d/tags/fruit/citrus"));
    assert!(s.item_has_tag("/d/all/b.txt", "/d/tags/fruit/citrus"));
    assert!(s.item_has_tag("/d/all/album", "/d/tags/fruit"));

    // no path is both item and tag
    for item in s.items() {
        assert!(!s.has_tag(&item));
    }
}

#[test]
fn scanning_again_gives_the_same_index() {
    let first = scan_everything();
    let second = scan_everything();
    assert_eq!(sorted(first.items()), sorted(second.items()));
    assert_eq!(sorted(first.tags()), sorted(second.tags()));
    for item in first.items() {
        assert_eq!(first.item_name(&item), second.item_name(&item));
        for tag in first.tags() {
            assert_eq!(first.tag_name(&tag), second.tag_name(&tag));
            assert_eq!(first.link_of(&tag, &item), second.link_of(&tag, &item));
            assert_eq!(first.item_has_tag(&item, &tag), second.item_has_tag(&item, &tag));
        }
    }
}

#[test]
fn scanning_the_items_again_into_the_index_changes_nothing() {
    let mut s = scan_everything();
    assert_eq!(scan_items(&mut s, &items_dir()), Ok(()));
    let fresh = scan_everything();
    assert_eq!(sorted(s.items()), sorted(fresh.items()));
    for item in fresh.items() {
        assert_eq!(s.item_name(&item), fresh.item_name(&item));
        for tag in fresh.tags() {
            assert_eq!(s.link_of(&tag, &item), fresh.link_of(&tag, &item));
            assert_eq!(s.item_has_tag(&item, &tag), fresh.item_has_tag(&item, &tag));
        }
    }
}

#[test]
fn scan_tags_of_a_directory_that_is_no_tag_links_nothing() {
    let mut s = AppState::new("/d/tags");
    assert_eq!(scan_items(&mut s, &items_dir()), Ok(()));
    let mut scan = TagScan::new("/d/tags");
    let dir = PendingDir { path: "/d/tags/unknown".to_string(), name: "unknown".to_string() };
    scan_tags(&mut s, &mut scan, &dir, &vec![entry("a.txt", "/d/all/a.txt", false)]);
    assert!(s.tags().is_empty());
    assert!(!s.item_has_tag("/d/all/a.txt", "/d/tags/unknown"));
}
