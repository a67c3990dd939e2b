use gooseberry::annotation::Annotation;
use gooseberry::database::Gooseberry;
use gooseberry::errors::Apologize;
use gooseberry::IGNORE_TAG;
use gooseberry::MIN_DATE;

fn ann_at(id: &str, tags: &[&str], updated: u64) -> Annotation {
    Annotation {
        id: id.to_string(),
        group: "g1".to_string(),
        uri: format!("https://example.com/{}", id),
        text: String::new(),
        tags: tags.iter().map(|t| t.to_string()).collect(),
        created: updated,
        updated,
        quotes: Vec::new(),
        has_selectors: true,
    }
}

#[test]
fn sync_two_new_records_advances_cursor() {
    // Scenario C: a 2-record page with T1 < T2 from cursor T0 < T1.
    let mut g = Gooseberry::new_temp().unwrap();
    g.set_sync_time(5).unwrap();
    let page = vec![ann_at("a1", &["x"], 10), ann_at("a2", &["y"], 20)];
    let (added, updated, ignored) = g.sync_annotations(&page).unwrap();
    assert_eq!((added, updated, ignored), (2, 0, 0));
    assert_eq!(g.get_sync_time().unwrap(), 20);
}

#[test]
fn sync_classifies_updates() {
    let mut g = Gooseberry::new_temp().unwrap();
    let first = vec![ann_at("a1", &["x"], 10)];
    g.sync_annotations(&first).unwrap();
    let second = vec![ann_at("a1", &["y"], 30), ann_at("a2", &["z"], 40)];
    let (added, updated, ignored) = g.sync_annotations(&second).unwrap();
    assert_eq!((added, updated, ignored), (1, 1, 0));
    assert!(matches!(
        g.get_tagged_annotations(&"x".to_string()),
        Err(Apologize::TagNotFound { .. })
    ));
    assert_eq!(g.get_tagged_annotations(&"y".to_string()).unwrap(), vec!["a1".to_string()]);
}

#[test]
fn sync_tombstones_previously_synced_record() {
    // Scenario D: a record carrying the ignore sentinel that was synced before.
    let mut g = Gooseberry::new_temp().unwrap();
    g.sync_annotations(&vec![ann_at("a1", &["x"], 10)]).unwrap();
    let page = vec![ann_at("a1", &[IGNORE_TAG, "x"], 20)];
    let (added, updated, ignored) = g.sync_annotations(&page).unwrap();
    assert_eq!((added, updated, ignored), (0, 0, 1));
    assert!(matches!(
        g.get_annotation(&"a1".to_string()),
        Err(Apologize::AnnotationNotFound { .. })
    ));
    assert!(matches!(
        g.get_tagged_annotations(&"x".to_string()),
        Err(Apologize::TagNotFound { .. })
    ));
    assert_eq!(g.get_sync_time().unwrap(), 20);
}

#[test]
fn sync_tombstone_for_unknown_id_just_counts() {
    let mut g = Gooseberry::new_temp().unwrap();
    let page = vec![ann_at("ghost", &[IGNORE_TAG], 7)];
    let (added, updated, ignored) = g.sync_annotations(&page).unwrap();
    assert_eq!((added, updated, ignored), (0, 0, 1));
    assert_eq!(g.get_sync_time().unwrap(), 7);
}

#[test]
fn rerunning_sync_on_same_page_is_idempotent() {
    let mut g = Gooseberry::new_temp().unwrap();
    let page = vec![ann_at("a1", &["x"], 10), ann_at("a2", &["x", "y"], 20)];
    g.sync_annotations(&page).unwrap();
    let tags_before = g.get_tagged_annotations(&"x".to_string()).unwrap();
    let (added, updated, ignored) = g.sync_annotations(&page).unwrap();
    assert_eq!((added, updated, ignored), (0, 2, 0));
    assert_eq!(g.get_tagged_annotations(&"x".to_string()).unwrap(), tags_before);
    assert_eq!(g.get_sync_time().unwrap(), 20);
}

#[test]
fn empty_page_leaves_cursor_alone() {
    let mut g = Gooseberry::new_temp().unwrap();
    assert_eq!(g.get_sync_time().unwrap(), MIN_DATE);
    g.set_sync_time(42).unwrap();
    let (added, updated, ignored) = g.sync_annotations(&Vec::new()).unwrap();
    assert_eq!((added, updated, ignored), (0, 0, 0));
    assert_eq!(g.get_sync_time().unwrap(), 42);
}

#[test]
fn invalid_page_is_rejected_whole() {
    let mut g = Gooseberry::new_temp().unwrap();
    let page = vec![ann_at("good", &["x"], 10), ann_at("bad", &["se;mi"], 20)];
    let r = g.sync_annotations(&page);
    assert!(matches!(r, Err(Apologize::EncodingError)));
    assert!(matches!(
        g.get_annotation(&"good".to_string()),
        Err(Apologize::AnnotationNotFound { .. })
    ));
    assert_eq!(g.get_sync_time().unwrap(), MIN_DATE);
}

#[test]
fn reset_sync_time_goes_back_to_the_beginning() {
    let mut g = Gooseberry::new_temp().unwrap();
    g.set_sync_time(1234).unwrap();
    g.reset_sync_time().unwrap();
    assert_eq!(g.get_sync_time().unwrap(), MIN_DATE);
}

#[test]
fn tag_editing_updates_the_index() {
    let mut g = Gooseberry::new_temp().unwrap();
    let a1 = ann_at("a1", &["x"], 10);
    let a2 = ann_at("a2", &[], 20);
    g.upsert(&a1).unwrap();
    g.upsert(&a2).unwrap();
    let modified = g
        .add_tag_to_annotations(&vec![a1.clone(), a2.clone()], &"new".to_string())
        .unwrap();
    assert_eq!(modified.len(), 2);
    let mut tagged = g.get_tagged_annotations(&"new".to_string()).unwrap();
    tagged.sort();
    assert_eq!(tagged, vec!["a1".to_string(), "a2".to_string()]);
    // annotations already carrying the tag are skipped: nothing to push
    let none = g
        .add_tag_to_annotations(&modified.clone(), &"new".to_string())
        .unwrap();
    assert!(none.is_empty());
    // removing it again restores the untagged sentinel for a2
    let modified2: Vec<Annotation> = modified;
    g.delete_tag_from_annotations(&modified2, &"new".to_string()).unwrap();
    assert_eq!(
        g.get_tagged_annotations(&gooseberry::EMPTY_TAG.to_string()).unwrap(),
        vec!["a2".to_string()]
    );
    assert_eq!(g.get_annotation_tags(&"a1".to_string()).unwrap(), vec!["x".to_string()]);
}
