use schema_semantic::codec::EntityId;
use schema_semantic::message::{Source, Target};

#[test]
fn source_runtime_flag() {
    assert!(Source::Runtime.runtime());
    assert!(!Source::Server.runtime());
    assert!(!Source::Local(EntityId { id0: 1, id1: 2 }).runtime());
}

#[test]
fn source_client_user_id_only_for_clients() {
    let s = Source::Client { user_id: "alice".to_string() };
    assert_eq!(s.client_user_id(), Some("alice".to_string()));
    assert_eq!(Source::Runtime.client_user_id(), None);
}

#[test]
fn source_local_only_for_local_modules() {
    let id = EntityId { id0: 7, id1: 9 };
    assert_eq!(Source::Local(id).local(), Some(id));
    assert_eq!(Source::Server.local(), None);
}

#[test]
fn source_from_parts_checks_in_order() {
    let id = EntityId { id0: 3, id1: 4 };
    assert!(matches!(Source::from_parts(true, Some(id), true, None), Some(Source::Runtime)));
    assert!(matches!(Source::from_parts(false, Some(id), true, None), Some(Source::Local(_))));
    assert!(matches!(Source::from_parts(false, None, true, None), Some(Source::Server)));
    match Source::from_parts(false, None, false, Some("bob".to_string())) {
        Some(Source::Client { user_id }) => assert_eq!(user_id, "bob"),
        other => panic!("expected a client source, got {:?}", other.is_some()),
    }
    assert!(Source::from_parts(false, None, false, None).is_none());
}

#[test]
fn target_locality() {
    assert!(Target::LocalBroadcast.is_local());
    assert!(Target::Local(EntityId { id0: 0, id1: 0 }).is_local());
    assert!(!Target::ServerReliable.is_local());
    assert!(!Target::ClientTargetedReliable("carol".to_string()).is_local());
}
