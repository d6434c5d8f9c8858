use increment_version::tags::is_available;

#[test]
fn taken_tag_is_reported() {
    let tags = vec!["v1.0.0".to_string(), "v1.1.0".to_string()];
    let (available, tag_name) = is_available(&tags, "1.1.0");
    assert!(!available);
    assert_eq!(tag_name, "v1.1.0");
}

#[test]
fn free_tag_is_reported() {
    let tags = vec!["v1.0.0".to_string(), "v1.1.0".to_string()];
    let (available, tag_name) = is_available(&tags, "1.2.0");
    assert!(available);
    assert_eq!(tag_name, "v1.2.0");
}

#[test]
fn empty_tag_list_is_always_free() {
    let tags: Vec<String> = vec![];
    let (available, tag_name) = is_available(&tags, "0.1.0");
    assert!(available);
    assert_eq!(tag_name, "v0.1.0");
}

#[test]
fn tag_comparison_is_exact() {
    // a bare version among the tags does not collide with the v-prefixed tag
    let tags = vec!["1.2.0".to_string()];
    let (available, tag_name) = is_available(&tags, "1.2.0");
    assert!(available);
    assert_eq!(tag_name, "v1.2.0");
}
