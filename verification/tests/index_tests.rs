use gooseberry::annotation::Annotation;
use gooseberry::database::Gooseberry;
use gooseberry::errors::Apologize;
use gooseberry::EMPTY_TAG;

fn ann(id: &str, tags: &[&str]) -> Annotation {
    Annotation {
        id: id.to_string(),
        group: "g1".to_string(),
        uri: format!("https://example.com/{}", id),
        text: format!("text of {}", id),
        tags: tags.iter().map(|t| t.to_string()).collect(),
        created: 100,
        updated: 100,
        quotes: vec!["a quote".to_string()],
        has_selectors: true,
    }
}

fn store() -> Gooseberry {
    Gooseberry::new_temp().expect("temp store")
}

#[test]
fn upsert_indexes_both_tags() {
    // Scenario A: upsert {id: a1, tags: [x, y]}
    let mut g = store();
    g.upsert(&ann("a1", &["x", "y"])).unwrap();
    assert_eq!(g.get_tagged_annotations(&"x".to_string()).unwrap(), vec!["a1".to_string()]);
    assert_eq!(g.get_tagged_annotations(&"y".to_string()).unwrap(), vec!["a1".to_string()]);
    assert_eq!(
        g.get_annotation_tags(&"a1".to_string()).unwrap(),
        vec!["x".to_string(), "y".to_string()]
    );
}

#[test]
fn re_upsert_moves_tag_memberships() {
    // Scenario B: re-upsert a1 with tags [y, z]
    let mut g = store();
    g.upsert(&ann("a1", &["x", "y"])).unwrap();
    g.upsert(&ann("a1", &["y", "z"])).unwrap();
    let x = g.get_tagged_annotations(&"x".to_string());
    assert!(matches!(x, Err(Apologize::TagNotFound { .. })));
    assert_eq!(g.get_tagged_annotations(&"z".to_string()).unwrap(), vec!["a1".to_string()]);
    assert_eq!(g.get_tagged_annotations(&"y".to_string()).unwrap(), vec!["a1".to_string()]);
}

#[test]
fn upsert_twice_is_idempotent() {
    let mut g = store();
    let a = ann("a1", &["x", "y"]);
    g.upsert(&a).unwrap();
    g.upsert(&a).unwrap();
    assert_eq!(g.get_tagged_annotations(&"x".to_string()).unwrap(), vec!["a1".to_string()]);
    assert_eq!(
        g.get_annotation_tags(&"a1".to_string()).unwrap(),
        vec!["x".to_string(), "y".to_string()]
    );
}

#[test]
fn delete_after_upsert_restores_state() {
    // Round trip: delete(upsert(a).id) leaves no dangling tag entries.
    let mut g = store();
    g.upsert(&ann("other", &["x"])).unwrap();
    g.upsert(&ann("a1", &["x", "y"])).unwrap();
    let tags = g.delete_annotation(&"a1".to_string()).unwrap();
    assert_eq!(tags, vec!["x".to_string(), "y".to_string()]);
    assert!(matches!(
        g.get_annotation(&"a1".to_string()),
        Err(Apologize::AnnotationNotFound { .. })
    ));
    assert!(matches!(
        g.get_annotation_tags(&"a1".to_string()),
        Err(Apologize::AnnotationNotFound { .. })
    ));
    // x still holds only the other annotation; y is gone entirely
    assert_eq!(g.get_tagged_annotations(&"x".to_string()).unwrap(), vec!["other".to_string()]);
    assert!(matches!(
        g.get_tagged_annotations(&"y".to_string()),
        Err(Apologize::TagNotFound { .. })
    ));
}

#[test]
fn untagged_annotation_lives_under_sentinel() {
    // Sentinel correctness: tags = [] is retrievable via EMPTY_TAG only.
    let mut g = store();
    g.upsert(&ann("a1", &[])).unwrap();
    assert_eq!(
        g.get_tagged_annotations(&EMPTY_TAG.to_string()).unwrap(),
        vec!["a1".to_string()]
    );
    assert_eq!(g.get_annotation_tags(&"a1".to_string()).unwrap(), Vec::<String>::new());
    assert!(matches!(
        g.get_tagged_annotations(&"x".to_string()),
        Err(Apologize::TagNotFound { .. })
    ));
}

#[test]
fn blank_tags_fold_into_sentinel() {
    let mut g = store();
    g.upsert(&ann("a1", &["  ", ""])).unwrap();
    assert_eq!(
        g.get_tagged_annotations(&EMPTY_TAG.to_string()).unwrap(),
        vec!["a1".to_string()]
    );
    assert_eq!(g.get_annotation_tags(&"a1".to_string()).unwrap(), Vec::<String>::new());
}

#[test]
fn duplicate_tags_are_indexed_once() {
    let mut g = store();
    g.upsert(&ann("a1", &["x", "x", "y"])).unwrap();
    assert_eq!(
        g.get_annotation_tags(&"a1".to_string()).unwrap(),
        vec!["x".to_string(), "y".to_string()]
    );
}

#[test]
fn reserved_characters_are_rejected() {
    let mut g = store();
    let r = g.upsert(&ann("a1", &["bad;tag"]));
    assert!(matches!(r, Err(Apologize::EncodingError)));
    let r2 = g.upsert(&ann("a;1", &["x"]));
    assert!(matches!(r2, Err(Apologize::EncodingError)));
    let r3 = g.upsert(&ann("a1", &[EMPTY_TAG]));
    assert!(matches!(r3, Err(Apologize::EncodingError)));
    // nothing was stored
    assert!(matches!(
        g.get_annotation(&"a1".to_string()),
        Err(Apologize::AnnotationNotFound { .. })
    ));
}

#[test]
fn record_round_trips_through_store() {
    let mut g = store();
    let a = Annotation {
        id: "weird".to_string(),
        group: "g;2".to_string(),
        uri: "https://example.com/?q=a;b".to_string(),
        text: "multi\nline ; text".to_string(),
        tags: vec!["t1".to_string()],
        created: 42,
        updated: 43,
        quotes: vec!["first; quote".to_string(), "second".to_string()],
        has_selectors: false,
    };
    g.upsert(&a).unwrap();
    let b = g.get_annotation(&"weird".to_string()).unwrap();
    assert_eq!(b.id, a.id);
    assert_eq!(b.group, a.group);
    assert_eq!(b.uri, a.uri);
    assert_eq!(b.text, a.text);
    assert_eq!(b.tags, a.tags);
    assert_eq!(b.created, a.created);
    assert_eq!(b.updated, a.updated);
    assert_eq!(b.quotes, a.quotes);
    assert_eq!(b.has_selectors, a.has_selectors);
}

#[test]
fn delete_annotations_batch() {
    let mut g = store();
    g.upsert(&ann("a1", &["x"])).unwrap();
    g.upsert(&ann("a2", &["x", "y"])).unwrap();
    let lists = g
        .delete_annotations(&vec!["a1".to_string(), "a2".to_string()])
        .unwrap();
    assert_eq!(lists, vec![vec!["x".to_string()], vec!["x".to_string(), "y".to_string()]]);
    assert!(matches!(
        g.get_tagged_annotations(&"x".to_string()),
        Err(Apologize::TagNotFound { .. })
    ));
}

#[test]
fn delete_missing_annotation_errors() {
    let mut g = store();
    let r = g.delete_annotation(&"nope".to_string());
    assert!(matches!(r, Err(Apologize::AnnotationNotFound { .. })));
}

#[test]
fn iter_annotations_lists_everything() {
    let mut g = store();
    g.upsert(&ann("a1", &["x"])).unwrap();
    g.upsert(&ann("a2", &["y"])).unwrap();
    let mut ids: Vec<String> = g.iter_annotations().unwrap().into_iter().map(|a| a.id).collect();
    ids.sort();
    assert_eq!(ids, vec!["a1".to_string(), "a2".to_string()]);
}

#[test]
fn clear_empties_the_store() {
    let mut g = store();
    g.upsert(&ann("a1", &["x"])).unwrap();
    g.set_sync_time(99).unwrap();
    g.clear().unwrap();
    assert!(g.iter_annotations().unwrap().is_empty());
    assert_eq!(g.get_sync_time().unwrap(), gooseberry::MIN_DATE);
}

#[test]
fn error_messages_name_their_subject() {
    let e = Apologize::TagNotFound { tag: "zzz".to_string() };
    assert!(e.message().contains("zzz"));
    let e2 = Apologize::AnnotationNotFound { id: "a9".to_string() };
    assert!(e2.message().contains("a9"));
}

#[test]
fn tag_maps_stay_bidirectionally_consistent() {
    // For every id, tags_of(id) = T iff id sits in exactly the buckets of T.
    let mut g = store();
    g.upsert(&ann("a1", &["x", "y"])).unwrap();
    g.upsert(&ann("a2", &["y", "z"])).unwrap();
    g.upsert(&ann("a3", &[])).unwrap();
    g.delete_annotation(&"a1".to_string()).unwrap();
    let all = g.iter_annotations().unwrap();
    let all_tags = ["x", "y", "z", EMPTY_TAG];
    for a in &all {
        let tags = g.get_annotation_tags(&a.id).unwrap();
        for t in &all_tags {
            let members = g.get_tagged_annotations(&t.to_string()).unwrap_or_default();
            let effective = if tags.is_empty() { *t == EMPTY_TAG } else { tags.iter().any(|x| x == t) };
            assert_eq!(members.contains(&a.id), effective, "tag {} id {}", t, a.id);
        }
    }
}
