use stash::{AllowList, Response};

#[test]
fn node_auth() {
    let mut auth = AllowList::new("admin".to_string(), vec![]);
    assert!(auth.allow("admin"));
    assert!(!auth.allow("peer"));

    let rsp = auth.add_client("admin", "peer");
    assert_eq!(rsp, Response::Success("OK".to_string()));
    assert!(auth.allow("peer"));

    let rsp = auth.add_client("peer", "peer");
    assert_eq!(rsp.err(), "Unauthorized");
    let rsp = auth.remove_client("peer", "peer");
    assert_eq!(rsp.err(), "Unauthorized");
    assert!(auth.allow("peer"));

    let rsp = auth.remove_client("admin", "peer");
    assert!(matches!(rsp, Response::Success(_)));
    assert!(!auth.allow("peer"));
}

#[test]
fn add_is_idempotent() {
    let mut auth = AllowList::new("admin".to_string(), vec!["a".to_string()]);
    assert!(auth.add("admin", "a"));
    assert!(auth.add("admin", "b"));
    assert!(auth.add("admin", "b"));
    assert!(auth.add("admin", "admin"));
    assert_eq!(auth.nodes(), &vec!["a".to_string(), "b".to_string()]);
}

#[test]
fn remove_is_idempotent() {
    let mut auth = AllowList::new("admin".to_string(), vec!["a".to_string(), "b".to_string(), "a".to_string()]);
    assert!(auth.remove("admin", "a"));
    assert_eq!(auth.nodes(), &vec!["b".to_string()]);
    assert!(auth.remove("admin", "a"));
    assert_eq!(auth.nodes(), &vec!["b".to_string()]);
    assert!(!auth.remove("b", "b"));
    assert!(auth.allow("b"));
    assert!(auth.remove("admin", "admin"));
    assert!(auth.allow("admin"));
    assert_eq!(auth.admin(), "admin");
}
