use gooseberry::annotation::Annotation;
use gooseberry::database::Gooseberry;
use gooseberry::filter::Filters;

fn ann_full(
    id: &str,
    tags: &[&str],
    uri: &str,
    text: &str,
    quotes: &[&str],
    created: u64,
    has_selectors: bool,
) -> Annotation {
    Annotation {
        id: id.to_string(),
        group: "g1".to_string(),
        uri: uri.to_string(),
        text: text.to_string(),
        tags: tags.iter().map(|t| t.to_string()).collect(),
        created,
        updated: created + 1,
        quotes: quotes.iter().map(|q| q.to_string()).collect(),
        has_selectors,
    }
}

fn three_store() -> Gooseberry {
    let mut g = Gooseberry::new_temp().unwrap();
    g.upsert(&ann_full("a1", &["a"], "https://one.test", "alpha", &["q one"], 30, true))
        .unwrap();
    g.upsert(&ann_full("a2", &["a", "b"], "https://two.test", "beta", &["q two"], 10, true))
        .unwrap();
    g.upsert(&ann_full("a3", &["b", "c"], "https://three.test", "gamma", &[], 20, false))
        .unwrap();
    g
}

#[test]
fn all_of_tag_filter_keeps_exactly_the_full_match() {
    // Scenario E: filter({tags: [a, b], and: true}) over three annotations.
    let g = three_store();
    let mut f = Filters::default();
    f.tags = vec!["a".to_string(), "b".to_string()];
    f.and = true;
    let got = g.filter_annotations(&f).unwrap();
    assert_eq!(got.len(), 1);
    assert_eq!(got[0].id, "a2");
}

#[test]
fn any_of_tag_filter_and_result_order() {
    let g = three_store();
    let mut f = Filters::default();
    f.tags = vec!["a".to_string(), "b".to_string()];
    let ids: Vec<String> = g.filter_annotations(&f).unwrap().into_iter().map(|a| a.id).collect();
    // all three match some tag; ascending by created: a2 (10), a3 (20), a1 (30)
    assert_eq!(ids, vec!["a2".to_string(), "a3".to_string(), "a1".to_string()]);
}

#[test]
fn exclude_tags_drop_matches() {
    let g = three_store();
    let mut f = Filters::default();
    f.exclude_tags = vec!["b".to_string()];
    let ids: Vec<String> = g.filter_annotations(&f).unwrap().into_iter().map(|a| a.id).collect();
    assert_eq!(ids, vec!["a1".to_string()]);
}

#[test]
fn not_flag_negates_the_whole_predicate() {
    let g = three_store();
    let mut f = Filters::default();
    f.tags = vec!["a".to_string()];
    f.not = true;
    let ids: Vec<String> = g.filter_annotations(&f).unwrap().into_iter().map(|a| a.id).collect();
    assert_eq!(ids, vec!["a3".to_string()]);
}

#[test]
fn time_range_filters() {
    let g = three_store();
    let mut f = Filters::default();
    f.from = Some(20);
    let ids: Vec<String> = g.filter_annotations(&f).unwrap().into_iter().map(|a| a.id).collect();
    assert_eq!(ids, vec!["a3".to_string(), "a1".to_string()]);
    let mut f2 = Filters::default();
    f2.before = Some(20);
    let ids2: Vec<String> = g.filter_annotations(&f2).unwrap().into_iter().map(|a| a.id).collect();
    // the upper bound is exclusive: a3 (created exactly 20) is out
    assert_eq!(ids2, vec!["a2".to_string()]);
    let mut f3 = Filters::default();
    f3.from = Some(20);
    f3.include_updated = true;
    let ids3: Vec<String> = g.filter_annotations(&f3).unwrap().into_iter().map(|a| a.id).collect();
    // updated = created + 1, so a3 (21) and a1 (31) stay
    assert_eq!(ids3, vec!["a3".to_string(), "a1".to_string()]);
}

#[test]
fn substring_filters() {
    let g = three_store();
    let mut f = Filters::default();
    f.uri = "two".to_string();
    let ids: Vec<String> = g.filter_annotations(&f).unwrap().into_iter().map(|a| a.id).collect();
    assert_eq!(ids, vec!["a2".to_string()]);
    let mut f2 = Filters::default();
    f2.text = "amm".to_string();
    let ids2: Vec<String> = g.filter_annotations(&f2).unwrap().into_iter().map(|a| a.id).collect();
    assert_eq!(ids2, vec!["a3".to_string()]);
    let mut f3 = Filters::default();
    f3.quote = "q one".to_string();
    let ids3: Vec<String> = g.filter_annotations(&f3).unwrap().into_iter().map(|a| a.id).collect();
    assert_eq!(ids3, vec!["a1".to_string()]);
    let mut f4 = Filters::default();
    f4.any = "q two".to_string();
    let ids4: Vec<String> = g.filter_annotations(&f4).unwrap().into_iter().map(|a| a.id).collect();
    assert_eq!(ids4, vec!["a2".to_string()]);
}

#[test]
fn page_and_annotation_type_filters() {
    let g = three_store();
    let mut f = Filters::default();
    f.page = true;
    let ids: Vec<String> = g.filter_annotations(&f).unwrap().into_iter().map(|a| a.id).collect();
    assert_eq!(ids, vec!["a3".to_string()]);
    let mut f2 = Filters::default();
    f2.annotation = true;
    let ids2: Vec<String> = g.filter_annotations(&f2).unwrap().into_iter().map(|a| a.id).collect();
    assert_eq!(ids2, vec!["a2".to_string(), "a1".to_string()]);
}

#[test]
fn make_filter_drops_configured_ignore_tags() {
    let g = three_store();
    let f = Filters::default();
    let ids: Vec<String> = g
        .filter_annotations_make(&f, &vec!["c".to_string()])
        .unwrap()
        .into_iter()
        .map(|a| a.id)
        .collect();
    assert_eq!(ids, vec!["a2".to_string(), "a1".to_string()]);
}

#[test]
fn filter_annotation_is_the_conjunction() {
    let g = Gooseberry::new_temp().unwrap();
    let a = ann_full("a1", &["a"], "https://one.test", "alpha", &["q"], 30, true);
    let mut f = Filters::default();
    f.tags = vec!["a".to_string()];
    f.text = "alp".to_string();
    assert!(g.filter_annotation(&a, &f));
    f.text = "zzz".to_string();
    assert!(!g.filter_annotation(&a, &f));
}

#[test]
fn distinct_uris_deduplicates() {
    let a1 = ann_full("a1", &[], "https://one.test", "", &[], 1, true);
    let a2 = ann_full("a2", &[], "https://one.test", "", &[], 2, true);
    let a3 = ann_full("a3", &[], "https://two.test", "", &[], 3, true);
    let uris = gooseberry::filter::distinct_uris(
        &vec![a1.clone(), a2.clone(), a3.clone()],
        &Vec::new(),
    );
    assert_eq!(uris, vec!["https://one.test".to_string(), "https://two.test".to_string()]);
    let only = gooseberry::filter::distinct_uris(&vec![a1, a2, a3], &vec!["a3".to_string()]);
    assert_eq!(only, vec!["https://two.test".to_string()]);
}

#[test]
fn api_results_are_refined_and_sorted() {
    let a1 = ann_full("a1", &["keep"], "u1", "", &[], 30, true);
    let a2 = ann_full("a2", &["drop"], "u2", "", &[], 10, true);
    let a3 = ann_full("a3", &["keep"], "u3", "", &[], 20, false);
    let mut f = Filters::default();
    f.exclude_tags = vec!["drop".to_string()];
    let ids: Vec<String> = gooseberry::filter::refine_api_results(
        vec![a1.clone(), a2.clone(), a3.clone()],
        &f,
    )
    .into_iter()
    .map(|a| a.id)
    .collect();
    assert_eq!(ids, vec!["a3".to_string(), "a1".to_string()]);
    let remaining: Vec<String> =
        gooseberry::filter::negate_against(vec![a1, a2, a3], &vec!["a1".to_string()])
            .into_iter()
            .map(|a| a.id)
            .collect();
    assert_eq!(remaining, vec!["a2".to_string(), "a3".to_string()]);
}
