use linktag::index::{AppState, IndexError};
use linktag::path::resolve;
use linktag::select::{label_text, CheckState, Row};
use linktag::toggle::{LinkAction, Toggle};

const A: &str = "/d/all/a.txt";
const B: &str = "/d/all/b.txt";
const FRUIT: &str = "/d/tags/fruit";

fn sample() -> AppState {
    let mut s = AppState::new("tags");
    assert_eq!(s.add_item(A, "a.txt"), Ok(()));
    assert_eq!(s.add_item(B, "b.txt"), Ok(()));
    assert_eq!(s.add_tag(FRUIT, "fruit"), Ok(()));
    s
}

fn actions(plan: Toggle) -> Vec<LinkAction> {
    match plan {
        Toggle::Apply(mut actions) => {
            actions.sort_by_key(|a| match a {
                LinkAction::Create { item, .. } => item.clone(),
                LinkAction::Remove { item, .. } => item.clone(),
            });
            actions
        }
        other => panic!("no actions: {:?}", other),
    }
}

fn create(item: &str, link: &str, target: &str) -> LinkAction {
    LinkAction::Create {
        item: item.to_string(),
        link: link.to_string(),
        target: target.to_string(),
    }
}

fn remove(item: &str, link: &str) -> LinkAction {
    LinkAction::Remove { item: item.to_string(), link: link.to_string() }
}

/// Does the toggle and records every action, as if each had succeeded on disk.
fn toggle_all(s: &mut AppState, tag: &str) -> Vec<LinkAction> {
    let acts = actions(s.toggle_tag(tag));
    for a in acts.iter() {
        assert_eq!(s.commit(tag, a), Ok(()));
    }
    acts
}

#[test]
fn tag_state_follows_the_selection() {
    let mut s = sample();
    assert_eq!(s.tag_state(FRUIT), CheckState::Off);
    s.toggle_sel(A);
    assert_eq!(s.tag_state(FRUIT), CheckState::Off);
    assert_eq!(s.link(FRUIT, A, "a.txt"), Ok(()));
    assert_eq!(s.tag_state(FRUIT), CheckState::On);
    s.toggle_sel(B);
    assert_eq!(s.tag_state(FRUIT), CheckState::Mixed);
    assert_eq!(s.link(FRUIT, B, "b.txt"), Ok(()));
    assert_eq!(s.tag_state(FRUIT), CheckState::On);
    s.clear_selection();
    assert_eq!(s.tag_state(FRUIT), CheckState::Off);
    assert_eq!(s.tag_state("/d/tags/none"), CheckState::Off);
}

#[test]
fn labels_show_a_check_box_before_the_name() {
    assert_eq!(label_text(CheckState::Off, "a.txt"), "[ ] a.txt");
    assert_eq!(label_text(CheckState::On, "a.txt"), "[X] a.txt");
    assert_eq!(label_text(CheckState::Mixed, "fruit/citrus"), "[?] fruit/citrus");
    assert_eq!(label_text(CheckState::Off, ""), "[ ] ");
}

#[test]
fn item_label_shows_the_selection() {
    let mut s = sample();
    assert_eq!(s.item_label(A), Some("[ ] a.txt".to_string()));
    s.toggle_sel(A);
    assert_eq!(s.item_label(A), Some("[X] a.txt".to_string()));
    assert_eq!(s.item_label(B), Some("[ ] b.txt".to_string()));
    assert_eq!(s.item_label("/d/all/c.txt"), None);
}

#[test]
fn tag_label_shows_the_state_of_the_tag() {
    let mut s = sample();
    assert_eq!(s.tag_label(FRUIT), Some("[ ] fruit".to_string()));
    s.toggle_sel(A);
    s.toggle_sel(B);
    assert_eq!(s.link(FRUIT, A, "a.txt"), Ok(()));
    assert_eq!(s.tag_label(FRUIT), Some("[?] fruit".to_string()));
    assert_eq!(s.link(FRUIT, B, "b.txt"), Ok(()));
    assert_eq!(s.tag_label(FRUIT), Some("[X] fruit".to_string()));
    assert_eq!(s.tag_label("/d/tags/none"), None);
}

#[test]
fn plan_for_creates_where_untagged_and_removes_where_tagged() {
    let mut s = sample();
    assert_eq!(
        s.plan_for(FRUIT, A),
        Some(create(A, "/d/tags/fruit/a.txt", "../../all/a.txt"))
    );
    assert_eq!(s.link(FRUIT, A, "found"), Ok(()));
    assert_eq!(s.plan_for(FRUIT, A), Some(remove(A, "/d/tags/fruit/found")));
    assert_eq!(s.plan_for("/d/tags/none", A), None);
    assert_eq!(s.plan_for(FRUIT, "/d/all/c.txt"), None);
}

#[test]
fn toggle_of_unknown_tag_is_reported() {
    let mut s = sample();
    s.toggle_sel(A);
    assert_eq!(s.toggle_tag("/d/tags/none"), Toggle::UnknownTag);
}

#[test]
fn toggle_with_empty_selection_has_nothing_to_do() {
    let s = sample();
    assert_eq!(s.toggle_tag(FRUIT), Toggle::Apply(vec![]));
}

#[test]
fn toggle_twice_restores_the_state() {
    let mut s = sample();
    s.toggle_sel(A);
    let first = toggle_all(&mut s, FRUIT);
    assert_eq!(first, vec![create(A, "/d/tags/fruit/a.txt", "../../all/a.txt")]);
    assert!(s.is_tagged(FRUIT, A));
    assert!(s.item_has_tag(A, FRUIT));
    let second = toggle_all(&mut s, FRUIT);
    assert_eq!(second, vec![remove(A, "/d/tags/fruit/a.txt")]);
    assert!(!s.is_tagged(FRUIT, A));
    assert!(!s.item_has_tag(A, FRUIT));
    assert_eq!(s.link_of(FRUIT, A), None);
    assert!(s.has_tag(FRUIT));
    assert_eq!(s.tag_state(FRUIT), CheckState::Off);
}

#[test]
fn mixed_toggle_changes_nothing_however_often() {
    let mut s = sample();
    assert_eq!(s.link(FRUIT, A, "a.txt"), Ok(()));
    s.toggle_sel(A);
    s.toggle_sel(B);
    for _ in 0..3 {
        assert_eq!(s.toggle_tag(FRUIT), Toggle::Mixed);
        assert!(s.is_tagged(FRUIT, A));
        assert!(s.item_has_tag(A, FRUIT));
        assert!(!s.is_tagged(FRUIT, B));
        assert!(!s.item_has_tag(B, FRUIT));
        assert_eq!(s.link_of(FRUIT, A), Some("/d/tags/fruit/a.txt".to_string()));
        assert_eq!(s.tag_state(FRUIT), CheckState::Mixed);
        assert_eq!(s.selection().len(), 2);
    }
}

#[test]
fn failed_action_leaves_the_other_items_of_the_batch() {
    let mut s = sample();
    s.toggle_sel(A);
    s.toggle_sel(B);
    let acts = actions(s.toggle_tag(FRUIT));
    assert_eq!(acts.len(), 2);
    // the link for the first item could not be created: only the second is recorded
    assert_eq!(s.commit(FRUIT, &acts[1]), Ok(()));
    assert!(!s.is_tagged(FRUIT, A));
    assert!(s.is_tagged(FRUIT, B));
    assert!(s.item_has_tag(B, FRUIT));
    assert_eq!(s.tag_state(FRUIT), CheckState::Mixed);
}

#[test]
fn commit_refuses_what_does_not_fit_the_index() {
    let mut s = sample();
    let good = create(A, "/d/tags/fruit/a.txt", "../../all/a.txt");
    assert_eq!(s.commit("/d/tags/none", &good), Err(IndexError::UnknownTag));
    assert_eq!(
        s.commit(FRUIT, &create("/d/all/c.txt", "/d/tags/fruit/c.txt", "../../all/c.txt")),
        Err(IndexError::UnknownItem)
    );
    assert_eq!(
        s.commit(FRUIT, &create(A, "/d/tags/a.txt", "../../all/a.txt")),
        Err(IndexError::MisplacedLink)
    );
    assert_eq!(
        s.commit(FRUIT, &create(A, "/d/tags/fruit/a.txt", "../all/a.txt")),
        Err(IndexError::WrongTarget)
    );
    assert_eq!(s.commit(FRUIT, &remove(A, "/d/tags/fruit/a.txt")), Err(IndexError::NotTagged));
    assert!(!s.is_tagged(FRUIT, A));
    assert_eq!(s.commit(FRUIT, &good), Ok(()));
    assert_eq!(s.commit(FRUIT, &good), Err(IndexError::AlreadyTagged));
    assert_eq!(s.commit("/d/tags/none", &remove(A, "x")), Err(IndexError::UnknownTag));
    assert_eq!(s.commit(FRUIT, &remove(A, "/d/tags/fruit/b.txt")), Err(IndexError::MisplacedLink));
    assert!(s.is_tagged(FRUIT, A));
    assert_eq!(s.commit(FRUIT, &remove(A, "/d/tags/fruit/a.txt")), Ok(()));
    assert!(!s.is_tagged(FRUIT, A));
}

#[test]
fn items_with_one_display_name_get_one_link_path() {
    let mut s = sample();
    assert_eq!(s.add_item("/e/other/a.txt", "a.txt"), Ok(()));
    s.toggle_sel(A);
    s.toggle_sel("/e/other/a.txt");
    let acts = actions(s.toggle_tag(FRUIT));
    assert_eq!(
        acts,
        vec![
            create(A, "/d/tags/fruit/a.txt", "../../all/a.txt"),
            create("/e/other/a.txt", "/d/tags/fruit/a.txt", "../../../e/other/a.txt"),
        ]
    );
    // on disk the second link cannot be created; the first is recorded alone
    assert_eq!(s.commit(FRUIT, &acts[0]), Ok(()));
    assert!(s.is_tagged(FRUIT, A));
    assert!(!s.is_tagged(FRUIT, "/e/other/a.txt"));
}

#[test]
fn create_tag_then_toggle_scenario() {
    let mut s = AppState::new("/d/tags");
    assert_eq!(s.add_item(A, "a.txt"), Ok(()));
    assert_eq!(s.add_item(B, "b.txt"), Ok(()));

    // create tag `fruit`
    assert_eq!(s.new_tag_dir("fruit"), Some("/d/tags/fruit".to_string()));
    assert_eq!(s.create_tag(FRUIT, "fruit"), Ok(()));
    assert!(s.has_tag(FRUIT));
    assert_eq!(s.tag_name(FRUIT), Some("fruit".to_string()));
    assert!(!s.is_tagged(FRUIT, A));
    assert!(!s.is_tagged(FRUIT, B));

    // select a.txt, toggle fruit
    s.toggle_sel(A);
    let acts = toggle_all(&mut s, FRUIT);
    assert_eq!(acts, vec![create(A, "/d/tags/fruit/a.txt", "../../all/a.txt")]);
    assert_eq!(resolve(FRUIT, "../../all/a.txt"), Some(A.to_string()));
    assert_eq!(s.link_of(FRUIT, A), Some("/d/tags/fruit/a.txt".to_string()));
    assert!(s.item_has_tag(A, FRUIT));

    // select a.txt and b.txt, only a.txt tagged: mixed, nothing to do
    s.toggle_sel(B);
    assert_eq!(s.toggle_tag(FRUIT), Toggle::Mixed);
    assert!(s.is_tagged(FRUIT, A));
    assert!(!s.is_tagged(FRUIT, B));

    // tag b.txt too, then toggle with both selected: both links go
    s.toggle_sel(A);
    let acts = toggle_all(&mut s, FRUIT);
    assert_eq!(acts, vec![create(B, "/d/tags/fruit/b.txt", "../../all/b.txt")]);
    s.toggle_sel(A);
    let acts = toggle_all(&mut s, FRUIT);
    assert_eq!(
        acts,
        vec![remove(A, "/d/tags/fruit/a.txt"), remove(B, "/d/tags/fruit/b.txt")]
    );
    assert!(!s.item_has_tag(A, FRUIT));
    assert!(!s.item_has_tag(B, FRUIT));
    assert!(!s.is_tagged(FRUIT, A));
    assert!(!s.is_tagged(FRUIT, B));
    assert!(s.has_tag(FRUIT));
}

#[test]
fn new_tag_dir_lies_below_the_tags_root() {
    let s = AppState::new("tags");
    assert_eq!(s.new_tag_dir("fruit"), Some("tags/fruit".to_string()));
    assert_eq!(s.new_tag_dir("fruit/citrus"), Some("tags/fruit/citrus".to_string()));
    assert_eq!(s.new_tag_dir(""), None);
    let s = AppState::new("");
    assert_eq!(s.new_tag_dir("fruit"), Some("fruit".to_string()));
}

#[test]
fn create_tag_refuses_bad_input() {
    let mut s = sample();
    assert_eq!(s.create_tag("/d/tags/x", ""), Err(IndexError::EmptyName));
    assert_eq!(s.create_tag("tags/x", "x"), Err(IndexError::NotCanonical));
    assert_eq!(s.create_tag(A, "x"), Err(IndexError::IsItem));
    assert_eq!(s.create_tag(FRUIT, "fruit"), Err(IndexError::TagExists));
    assert!(!s.has_tag("/d/tags/x"));
    assert_eq!(s.tags().len(), 1);
}

#[test]
fn create_tag_keeps_a_nested_name() {
    let mut s = sample();
    assert_eq!(s.create_tag("/d/tags/fruit/citrus", "fruit/citrus"), Ok(()));
    assert_eq!(s.tag_name("/d/tags/fruit/citrus"), Some("fruit/citrus".to_string()));
    assert!(!s.has_tag("/d/tags/fruit/citrus/x"));
    assert_eq!(s.tags().len(), 2);
}

/// What can be seen of the invariants from outside: membership is known on
/// both sides, ids are canonical and not shared between items and tags, and
/// each link lies directly in its tag's directory and is no one else's.
fn assert_consistent(s: &AppState) {
    let items = s.items();
    let tags = s.tags();
    for item in items.iter() {
        assert!(linktag::path::is_canonical_path(item));
        assert!(!s.has_tag(item));
        assert!(linktag::path::is_entry_name(&s.item_name(item).unwrap()));
    }
    for tag in tags.iter() {
        assert!(linktag::path::is_canonical_path(tag));
        assert!(!s.has_item(tag));
        for item in items.iter() {
            assert_eq!(s.is_tagged(tag, item), s.item_has_tag(item, tag));
            if let Some(link) = s.link_of(tag, item) {
                assert!(linktag::path::is_canonical_path(&link));
                let name = &link[link.rfind('/').unwrap() + 1..];
                assert_eq!(linktag::path::child_path(tag, name), link);
            }
        }
    }
    for id in s.selection() {
        assert!(s.has_item(&id));
    }
}

#[test]
fn invariants_hold_after_every_operation() {
    let mut s = sample();
    assert_consistent(&s);
    assert_eq!(s.create_tag("/d/tags/veg", "veg"), Ok(()));
    assert_consistent(&s);
    assert_eq!(s.create_tag(A, "clash"), Err(IndexError::IsItem));
    assert_consistent(&s);
    s.toggle_sel(A);
    s.toggle_sel(B);
    toggle_all(&mut s, FRUIT);
    assert_consistent(&s);
    assert_eq!(s.tag_state(FRUIT), CheckState::On);
    s.toggle_sel(B);
    toggle_all(&mut s, "/d/tags/veg");
    assert_consistent(&s);
    toggle_all(&mut s, FRUIT);
    assert_consistent(&s);
    assert!(!s.is_tagged(FRUIT, A));
    assert!(s.is_tagged(FRUIT, B));
    assert!(s.is_tagged("/d/tags/veg", A));
    s.toggle_sel(B);
    assert_eq!(s.toggle_tag(FRUIT), Toggle::Mixed);
    assert_consistent(&s);
}

#[test]
fn rows_list_what_is_shown_by_display_name() {
    let mut s = sample();
    assert!(s.item_rows().is_empty());
    s.itemview_filter_reset();
    let mut rows = s.item_rows();
    rows.sort_by(|a, b| a.label.cmp(&b.label));
    assert_eq!(
        rows,
        vec![
            Row { label: "a.txt".to_string(), id: A.to_string() },
            Row { label: "b.txt".to_string(), id: B.to_string() },
        ]
    );
    assert_eq!(s.create_tag("/d/tags/fruit/citrus", "fruit/citrus"), Ok(()));
    let mut rows = s.tag_rows();
    rows.sort_by(|a, b| a.label.cmp(&b.label));
    assert_eq!(
        rows,
        vec![
            Row { label: "fruit".to_string(), id: FRUIT.to_string() },
            Row { label: "fruit/citrus".to_string(), id: "/d/tags/fruit/citrus".to_string() },
        ]
    );
}
