use linktag::path::{child_path, is_canonical_path, is_entry_name, resolve, tag_target_path};

fn target(tag: &str, item: &str) -> String {
    tag_target_path(tag, item).expect("both paths are canonical")
}

#[test]
fn target_climbs_once_per_remaining_tag_component() {
    assert_eq!(target("/d/tags/fruit", "/d/all/a.txt"), "../../all/a.txt");
    assert_eq!(target("/d/tags/fruit/citrus", "/d/all/a.txt"), "../../../all/a.txt");
    assert_eq!(target("/a/b/c/d", "/a/x"), "../../../x");
}

#[test]
fn target_without_common_ancestor_below_root() {
    assert_eq!(target("/tags", "/all/a.txt"), "../all/a.txt");
    assert_eq!(target("/t/u/v", "/x"), "../../../x");
}

#[test]
fn target_of_item_inside_tag_directory_does_not_climb() {
    assert_eq!(target("/a/b", "/a/b/c"), "c");
    assert_eq!(target("/a/b", "/a/b/c/d"), "c/d");
}

#[test]
fn target_of_item_above_tag_directory_only_climbs() {
    assert_eq!(target("/a/b", "/a"), "..");
    assert_eq!(target("/a/b/c", "/a"), "../..");
    assert_eq!(target("/a", "/"), "..");
}

#[test]
fn target_of_the_directory_itself_is_dot() {
    assert_eq!(target("/a", "/a"), ".");
    assert_eq!(target("/", "/"), ".");
}

#[test]
fn target_from_the_root() {
    assert_eq!(target("/", "/a"), "a");
    assert_eq!(target("/", "/a/b"), "a/b");
}

#[test]
fn target_compares_whole_names() {
    assert_eq!(target("/data/tags", "/data/tag"), "../tag");
    assert_eq!(target("/data/ab", "/data/a/b"), "../a/b");
}

#[test]
fn target_handles_names_beyond_ascii() {
    assert_eq!(target("/d/étiquettes/rouge", "/d/tout/été.txt"), "../../tout/été.txt");
}

#[test]
fn target_refuses_paths_that_are_not_canonical() {
    assert_eq!(tag_target_path("tags/fruit", "/all/a.txt"), None);
    assert_eq!(tag_target_path("/tags/fruit", "all/a.txt"), None);
    assert_eq!(tag_target_path("/tags/", "/all/a.txt"), None);
    assert_eq!(tag_target_path("/tags//fruit", "/all/a.txt"), None);
    assert_eq!(tag_target_path("/tags/./fruit", "/all/a.txt"), None);
    assert_eq!(tag_target_path("/tags/fruit", "/all/../a.txt"), None);
    assert_eq!(tag_target_path("", "/all/a.txt"), None);
}

#[test]
fn resolving_the_target_from_the_tag_gives_the_item() {
    let paths = [
        "/",
        "/a",
        "/a/b",
        "/a/b/c",
        "/a/b/c/d",
        "/a/x",
        "/a/x/c",
        "/q",
        "/q/b/c",
        "/d/tags/fruit",
        "/d/all/a.txt",
    ];
    for tag in paths.iter() {
        for item in paths.iter() {
            let t = target(tag, item);
            assert_eq!(resolve(tag, &t), Some(item.to_string()), "{} -> {} by {}", tag, item, t);
        }
    }
}

#[test]
fn resolve_follows_segments_in_order() {
    assert_eq!(resolve("/a/b", "../c"), Some("/a/c".to_string()));
    assert_eq!(resolve("/a/b", "../../c/d"), Some("/c/d".to_string()));
    assert_eq!(resolve("/a/b", "c/../d"), Some("/a/b/d".to_string()));
    assert_eq!(resolve("/a", "./b//c/"), Some("/a/b/c".to_string()));
    assert_eq!(resolve("/a", ""), Some("/a".to_string()));
    assert_eq!(resolve("/a", "."), Some("/a".to_string()));
    assert_eq!(resolve("/a/b", "../.."), Some("/".to_string()));
}

#[test]
fn resolve_stays_at_the_root_when_climbing_further() {
    assert_eq!(resolve("/", ".."), Some("/".to_string()));
    assert_eq!(resolve("/a", "../../b"), Some("/b".to_string()));
}

#[test]
fn resolve_refuses_a_directory_that_is_not_canonical() {
    assert_eq!(resolve("a", "b"), None);
    assert_eq!(resolve("/a/", "b"), None);
}

#[test]
fn child_path_joins_with_one_separator() {
    assert_eq!(child_path("/tags/fruit", "a.txt"), "/tags/fruit/a.txt");
    assert_eq!(child_path("/", "a.txt"), "/a.txt");
}

#[test]
fn canonical_paths_are_absolute_and_normal() {
    assert!(is_canonical_path("/"));
    assert!(is_canonical_path("/a"));
    assert!(is_canonical_path("/a/b.c/d e"));
    assert!(is_canonical_path("/a/..b/.c/..."));
    assert!(!is_canonical_path(""));
    assert!(!is_canonical_path("a"));
    assert!(!is_canonical_path("a/b"));
    assert!(!is_canonical_path("//"));
    assert!(!is_canonical_path("/a/"));
    assert!(!is_canonical_path("//a"));
    assert!(!is_canonical_path("/a//b"));
    assert!(!is_canonical_path("/."));
    assert!(!is_canonical_path("/a/.."));
    assert!(!is_canonical_path("/a/./b"));
}

#[test]
fn entry_names_are_single_proper_segments() {
    assert!(is_entry_name("a.txt"));
    assert!(is_entry_name("..."));
    assert!(is_entry_name(".hidden"));
    assert!(!is_entry_name(""));
    assert!(!is_entry_name("."));
    assert!(!is_entry_name(".."));
    assert!(!is_entry_name("a/b"));
    assert!(!is_entry_name("/"));
}
