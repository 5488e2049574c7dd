use llm_wiki_web::reviews::{plan_resolve, reviews_with_id, select_reviews, ReviewMeta};

fn item(id: Option<&str>, resolved: bool, ty: Option<&str>) -> ReviewMeta {
    ReviewMeta { id: id.map(|s| s.to_string()), resolved, item_type: ty.map(|s| s.to_string()) }
}

fn items() -> Vec<ReviewMeta> {
    vec![
        item(Some("r1"), false, Some("missing-page")),
        item(Some("r2"), true, Some("contradiction")),
        item(None, false, Some("missing-page")),
        item(Some("r1"), false, None),
    ]
}

#[test]
fn listing_filters_by_status_and_type() {
    assert_eq!(select_reviews(&items(), "unresolved", None, 200), vec![0, 2, 3]);
    assert_eq!(select_reviews(&items(), "resolved", None, 200), vec![1]);
    assert_eq!(select_reviews(&items(), "all", Some("missing-page".to_string()), 200), vec![0, 2]);
    assert_eq!(select_reviews(&items(), "unresolved", None, 2), vec![0, 2]);
    assert_eq!(select_reviews(&items(), "weird", None, 200), vec![0, 1, 2, 3]);
}

#[test]
fn patch_touches_every_item_with_the_id() {
    assert_eq!(reviews_with_id(&items(), "r1"), vec![0, 3]);
    assert!(reviews_with_id(&items(), "zz").is_empty());
}

#[test]
fn bulk_resolve_splits_found_and_missing_ids() {
    let plan = plan_resolve(&items(), &["r2".to_string(), "nope".to_string(), "r1".to_string()]);
    assert_eq!(plan.items, vec![0, 1, 3]);
    assert_eq!(plan.resolved, vec!["r2".to_string(), "r1".to_string()]);
    assert_eq!(plan.not_found, vec!["nope".to_string()]);
}

#[test]
fn listing_with_zero_limit_still_shows_one_item() {
    assert_eq!(select_reviews(&items(), "all", None, 0), vec![0]);
    assert_eq!(select_reviews(&items(), "resolved", Some("missing-page".to_string()), 0), Vec::<usize>::new());
}
