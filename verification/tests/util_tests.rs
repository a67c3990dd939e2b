use gooseberry::configuration::GooseberryConfig;
use gooseberry::configuration::OrderBy;
use gooseberry::configuration::DEFAULT_ANNOTATION_TEMPLATE;
use gooseberry::utils::join_ids;
use gooseberry::utils::merge_index;
use gooseberry::utils::split_ids;
use gooseberry::utils::SEMICOLON;

#[test]
fn split_and_join_are_inverses() {
    let ids = vec!["a1".to_string(), "a2".to_string(), "a3".to_string()];
    let joined = join_ids(&ids);
    assert_eq!(joined, "a1;a2;a3");
    assert_eq!(split_ids(&joined), ids);
    assert_eq!(split_ids(""), vec!["".to_string()]);
    assert_eq!(join_ids(&Vec::new()), "");
}

#[test]
fn merge_appends_with_semicolon() {
    let merged = merge_index(b"key", Some(b"a1;a2"), b"a3").unwrap();
    assert_eq!(merged, b"a1;a2;a3".to_vec());
    let fresh = merge_index(b"key", None, b"a1").unwrap();
    assert_eq!(fresh, b"a1".to_vec());
    let empty_old = merge_index(b"key", Some(b""), b"a1").unwrap();
    assert_eq!(empty_old, b"a1".to_vec());
    assert_eq!(SEMICOLON, b';');
}

#[test]
fn replace_spaces_escapes_for_links() {
    assert_eq!(gooseberry::knowledge_base::replace_spaces("a b"), "a\\ b");
    assert_eq!(gooseberry::markdown::replace_spaces("a b c".to_string()), "a__b__c");
    assert_eq!(gooseberry::knowledge_base::replace_spaces("nospace"), "nospace");
}

#[test]
fn templates_fall_back_to_defaults() {
    let config = GooseberryConfig {
        hypothesis_username: None,
        hypothesis_key: None,
        hypothesis_group: None,
        db_dir: "unused".to_string(),
        kb_dir: None,
        annotation_template: None,
        index_link_template: Some("custom link".to_string()),
        page_template: None,
        index_name: None,
        file_extension: None,
        hierarchy: Some(vec![OrderBy::Tag]),
        sort: None,
        ignore_tags: None,
        nested_tag: None,
    };
    let t = config.get_templates();
    assert_eq!(t.annotation_template, DEFAULT_ANNOTATION_TEMPLATE);
    assert_eq!(t.index_link_template, "custom link");
    assert_eq!(OrderBy::BaseURI.display_name(), "base_uri");
}

#[test]
fn clean_uri_strips_scheme_and_trailing_slashes() {
    assert_eq!(gooseberry::utils::clean_uri("https://example.com/path/"), "example.com/path");
    assert_eq!(gooseberry::utils::clean_uri("urn:x-pdf:1234"), "urn:x-pdf:1234");
    assert_eq!(gooseberry::utils::clean_uri("not a url"), "not a url");
}

#[test]
fn uri_to_filename_replaces_reserved_characters() {
    assert_eq!(gooseberry::utils::uri_to_filename("https://example.com/a.b/c"), "example_com_a_b_c");
    assert_eq!(gooseberry::utils::uri_to_filename("not a url"), "not a url");
}

#[test]
fn contains_pattern_finds_substrings() {
    assert!(gooseberry::utils::contains_pattern("hello world", "lo wo"));
    assert!(!gooseberry::utils::contains_pattern("hello", "world"));
    assert!(gooseberry::utils::contains_pattern("anything", ""));
}
