use globwatcher::paths::{relative_to, relativize_batch};
use globwatcher::client::{should_retry_request, Membership, Team};
use globwatcher::StrSet;

#[test]
fn strset_insert_contains_remove() {
    let mut s = StrSet::new();
    assert!(s.is_empty());
    s.insert("a".to_owned());
    s.insert("b".to_owned());
    s.insert("a".to_owned());
    assert_eq!(s.len(), 2, "inserting an equal string twice stores it once");
    assert!(s.contains(&"a".to_owned()));
    assert!(s.contains(&"b".to_owned()));
    assert!(!s.contains(&"c".to_owned()));
    s.remove(&"a".to_owned());
    assert!(!s.contains(&"a".to_owned()));
    assert!(!s.is_empty());
}

#[test]
fn strset_subset_and_equality() {
    let mut a = StrSet::new();
    a.insert("x".to_owned());
    let mut b = StrSet::new();
    b.insert("x".to_owned());
    b.insert("y".to_owned());
    assert!(a.is_subset_of(&b));
    assert!(!b.is_subset_of(&a));
    assert!(!a.set_eq(&b));
    a.insert("y".to_owned());
    assert!(a.set_eq(&b));
}

#[test]
fn relative_to_strips_the_root() {
    assert_eq!(
        relative_to("/repo", "/repo/dist/app.css"),
        Some("dist/app.css".to_owned())
    );
    assert_eq!(relative_to("/repo", "/elsewhere/app.css"), None);
    assert_eq!(relative_to("/repo", "/repo"), Some("".to_owned()));
    assert_eq!(relative_to("/repo", "/rep"), None);
    assert_eq!(relative_to("/repo", "/repository/app.css"), None);
}

#[test]
fn relativize_batch_keeps_order_and_drops_outside_paths() {
    let paths = vec![
        "/repo/a.js".to_owned(),
        "/other/b.js".to_owned(),
        "/repo/c/d.js".to_owned(),
    ];
    let rel = relativize_batch("/repo", &paths);
    assert_eq!(rel, vec!["a.js".to_owned(), "c/d.js".to_owned()]);
}

#[test]
fn retry_only_on_too_many_requests_or_server_errors() {
    assert!(should_retry_request(Some(429)));
    assert!(should_retry_request(Some(500)));
    assert!(should_retry_request(Some(502)));
    assert!(!should_retry_request(Some(501)));
    assert!(!should_retry_request(Some(404)));
    assert!(!should_retry_request(Some(200)));
    assert!(!should_retry_request(None));
}

#[test]
fn team_owner_goes_by_the_membership_role() {
    let owner = Team {
        id: "t1".to_owned(),
        slug: "one".to_owned(),
        name: "One".to_owned(),
        created_at: 0,
        created: 0,
        membership: Membership::new("OWNER".to_owned()),
    };
    let member = Team {
        id: "t2".to_owned(),
        slug: "two".to_owned(),
        name: "Two".to_owned(),
        created_at: 0,
        created: 0,
        membership: Membership::new("MEMBER".to_owned()),
    };
    assert!(owner.is_owner());
    assert!(!member.is_owner());
}
