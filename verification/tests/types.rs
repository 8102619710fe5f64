use bigsets::types::{ActorId, ActorIdError, Dot, VersionVector};

#[test]
fn test_actor_id_new() {
    let actor = ActorId::new(1234, 5);
    assert_eq!(actor.version(), 0);
    assert_eq!(actor.node_id(), 1234);
    assert_eq!(actor.epoch(), 5);
}

#[test]
fn test_actor_id_from_node_id() {
    let actor = ActorId::from_node_id(42);
    assert_eq!(actor.version(), 0);
    assert_eq!(actor.node_id(), 42);
    assert_eq!(actor.epoch(), 0);
}

#[test]
fn test_actor_id_to_bytes() {
    let actor = ActorId::new(0x1234, 0x56);
    let bytes = actor.bytes();
    assert_eq!(bytes, [0x00, 0x12, 0x34, 0x56]);
}

#[test]
fn test_actor_id_from_bytes() {
    let bytes = [0x00, 0x12, 0x34, 0x56];
    let actor = ActorId::from_bytes(&bytes).unwrap();
    assert_eq!(actor.version(), 0);
    assert_eq!(actor.node_id(), 0x1234);
    assert_eq!(actor.epoch(), 0x56);
}

#[test]
fn test_actor_id_from_bytes_invalid_length() {
    let bytes = [0x00, 0x12, 0x34];
    assert!(ActorId::from_bytes(&bytes).is_err());
}

#[test]
fn test_actor_id_roundtrip_bytes() {
    let actor1 = ActorId::new(12345, 7);
    let bytes = actor1.bytes();
    let actor2 = ActorId::from_bytes(&bytes).unwrap();
    assert_eq!(actor1, actor2);
}

#[test]
fn test_actor_id_display() {
    let actor = ActorId::new(1234, 5);
    assert_eq!(actor.to_string(), "v0:1234:5");
}

#[test]
fn test_actor_id_from_str() {
    let actor = ActorId::from_str("v0:1234:5").unwrap();
    assert_eq!(actor.version(), 0);
    assert_eq!(actor.node_id(), 1234);
    assert_eq!(actor.epoch(), 5);
}

#[test]
fn test_actor_id_from_str_invalid() {
    assert!(ActorId::from_str("invalid").is_err());
    assert!(ActorId::from_str("1234:5").is_err());
    assert!(ActorId::from_str("v0:1234").is_err());
    assert!(ActorId::from_str("v0:abc:5").is_err());
}

#[test]
fn test_actor_id_roundtrip_string() {
    let actor1 = ActorId::new(999, 3);
    let s = actor1.to_string();
    let actor2 = ActorId::from_str(&s).unwrap();
    assert_eq!(actor1, actor2);
}

#[test]
fn test_actor_id_ordering() {
    let a1 = ActorId::new(1, 0);
    let a2 = ActorId::new(2, 0);
    let a3 = ActorId::new(1, 1);

    assert!(a1 < a2);
    assert!(a1 < a3);
    assert!(a3 < a2);
}

#[test]
fn test_dot_creation() {
    let actor = ActorId::new(1, 0);
    let dot = Dot::new(actor, 5);
    assert_eq!(dot.actor_id, actor);
    assert_eq!(dot.counter, 5);
}

#[test]
fn test_version_vector_new() {
    let vv = VersionVector::new();
    assert!(vv.is_empty());
}

#[test]
fn test_version_vector_increment() {
    let mut vv = VersionVector::new();
    let actor_a = ActorId::from_node_id(1);
    let actor_b = ActorId::from_node_id(2);

    let dot1 = vv.increment(actor_a);
    assert_eq!(dot1.actor_id, actor_a);
    assert_eq!(dot1.counter, 1);
    assert_eq!(vv.get(actor_a), 1);

    let dot2 = vv.increment(actor_a);
    assert_eq!(dot2.counter, 2);
    assert_eq!(vv.get(actor_a), 2);

    let dot3 = vv.increment(actor_b);
    assert_eq!(dot3.actor_id, actor_b);
    assert_eq!(dot3.counter, 1);
    assert_eq!(vv.get(actor_b), 1);
}

#[test]
fn test_version_vector_get() {
    let mut vv = VersionVector::new();
    let actor = ActorId::from_node_id(1);

    assert_eq!(vv.get(actor), 0);

    vv.increment(actor);
    assert_eq!(vv.get(actor), 1);
}

#[test]
fn test_version_vector_update() {
    let mut vv = VersionVector::new();
    let actor = ActorId::from_node_id(1);

    vv.update(actor, 5);
    assert_eq!(vv.get(actor), 5);

    vv.update(actor, 3);
    assert_eq!(vv.get(actor), 5);

    vv.update(actor, 7);
    assert_eq!(vv.get(actor), 7);
}

#[test]
fn test_version_vector_merge() {
    let mut vv1 = VersionVector::new();
    let actor_a = ActorId::from_node_id(1);
    let actor_b = ActorId::from_node_id(2);
    let actor_c = ActorId::from_node_id(3);

    vv1.increment(actor_a);
    vv1.increment(actor_a);
    vv1.increment(actor_b);

    let mut vv2 = VersionVector::new();
    vv2.increment(actor_a);
    vv2.increment(actor_c);
    vv2.increment(actor_c);

    vv1.merge(&vv2);

    assert_eq!(vv1.get(actor_a), 2);
    assert_eq!(vv1.get(actor_b), 1);
    assert_eq!(vv1.get(actor_c), 2);
}

#[test]
fn test_version_vector_descends() {
    let mut vv1 = VersionVector::new();
    let actor_a = ActorId::from_node_id(1);
    let actor_b = ActorId::from_node_id(2);
    let actor_c = ActorId::from_node_id(3);

    vv1.increment(actor_a);
    vv1.increment(actor_a);
    vv1.increment(actor_b);

    let mut vv2 = VersionVector::new();
    vv2.increment(actor_a);

    assert!(vv1.descends(&vv2));
    assert!(!vv2.descends(&vv1));

    let mut vv3 = VersionVector::new();
    vv3.increment(actor_c);

    assert!(!vv1.descends(&vv3));
    assert!(!vv3.descends(&vv1));
}

#[test]
fn test_version_vector_descends_self() {
    let mut vv = VersionVector::new();
    let actor = ActorId::from_node_id(1);

    vv.increment(actor);

    assert!(vv.descends(&vv));
}

#[test]
fn test_version_vector_from_str() {
    let vv = VersionVector::from_str("v0:1:0:5,v0:2:0:3,v0:3:0:2").unwrap();
    assert_eq!(vv.get(ActorId::from_node_id(1)), 5);
    assert_eq!(vv.get(ActorId::from_node_id(2)), 3);
    assert_eq!(vv.get(ActorId::from_node_id(3)), 2);

    let empty = VersionVector::from_str("").unwrap();
    assert!(empty.is_empty());

    assert!(VersionVector::from_str("invalid").is_none());
    assert!(VersionVector::from_str("v0:1:0:5,v0:2:0").is_none());
}

#[test]
fn test_version_vector_to_string() {
    let mut vv = VersionVector::new();
    let actor_a = ActorId::from_node_id(1);
    let actor_b = ActorId::from_node_id(2);

    vv.increment(actor_b);
    vv.increment(actor_a);
    vv.increment(actor_b);

    let s = vv.to_string();
    assert_eq!(s, "v0:1:0:1,v0:2:0:2");

    let empty = VersionVector::new();
    assert_eq!(empty.to_string(), "");
}

#[test]
fn test_version_vector_roundtrip() {
    let mut vv1 = VersionVector::new();
    let actor_a = ActorId::from_node_id(1);
    let actor_b = ActorId::from_node_id(2);
    let actor_c = ActorId::from_node_id(3);

    vv1.increment(actor_a);
    vv1.increment(actor_a);
    vv1.increment(actor_b);
    vv1.increment(actor_c);

    let s = vv1.to_string();
    let vv2 = VersionVector::from_str(&s).unwrap();

    assert_eq!(vv1, vv2);
}

#[test]
fn actor_id_from_str_accepts_plus_and_leading_zeros() {
    let actor = ActorId::from_str("v+0:007:+5").unwrap();
    assert_eq!(actor, ActorId::new(7, 5));
    assert_eq!(ActorId::from_str("v256:1:0"), Err(ActorIdError::InvalidFormat));
    assert_eq!(ActorId::from_str("v0:65536:0"), Err(ActorIdError::InvalidFormat));
    assert_eq!(ActorId::from_str("v0:1:0:0"), Err(ActorIdError::InvalidFormat));
    assert_eq!(ActorId::from_str("v0::0"), Err(ActorIdError::InvalidFormat));
    assert_eq!(ActorId::from_str("v0:1:é"), Err(ActorIdError::InvalidFormat));
    assert_eq!(ActorId::from_str(""), Err(ActorIdError::InvalidFormat));
}

#[test]
fn actor_id_from_bytes_reports_length() {
    assert_eq!(ActorId::from_bytes(&[1, 2, 3, 4, 5]), Err(ActorIdError::InvalidLength(5)));
    assert_eq!(ActorId::from_bytes(&[]), Err(ActorIdError::InvalidLength(0)));
    let a = ActorId::from_bytes(&[3, 0xff, 0xfe, 9]).unwrap();
    assert_eq!((a.version(), a.node_id(), a.epoch()), (3, 0xfffe, 9));
}

#[test]
fn dot_from_parts_checks_actor_bytes() {
    let d = Dot::from_parts(vec![0, 0, 7, 1], 9).unwrap();
    assert_eq!(d, Dot::new(ActorId::new(7, 1), 9));
    assert_eq!(Dot::from_parts(vec![0, 7], 9), Err(ActorIdError::InvalidLength(2)));
}

#[test]
fn version_vector_text_later_entry_counts() {
    let vv = VersionVector::from_str("v0:2:0:3,v0:1:0:5,v0:2:0:1").unwrap();
    assert_eq!(vv.get(ActorId::from_node_id(2)), 1);
    assert_eq!(vv.to_string(), "v0:1:0:5,v0:2:0:1");
    assert!(VersionVector::from_str("v0:1:0:5,").is_none());
    assert!(VersionVector::from_str(",").is_none());
    assert!(VersionVector::from_str("v0:1:0:18446744073709551616").is_none());
    let max = VersionVector::from_str("v0:1:0:18446744073709551615").unwrap();
    assert_eq!(max.get(ActorId::from_node_id(1)), u64::MAX);
}

#[test]
fn version_vector_orders_entries_by_actor_bytes() {
    let mut vv = VersionVector::new();
    vv.update(ActorId::new(256, 0), 1);
    vv.update(ActorId::new(1, 9), 2);
    vv.update(ActorId::new(1, 0), 3);
    assert_eq!(vv.to_string(), "v0:1:0:3,v0:1:9:2,v0:256:0:1");
    let dots = vv.dots();
    assert_eq!(dots.len(), 3);
    assert_eq!(dots[0], Dot::new(ActorId::new(1, 0), 3));
}

#[test]
fn version_vector_merge_is_idempotent() {
    let mut a = VersionVector::new();
    a.update(ActorId::from_node_id(1), 4);
    let mut b = VersionVector::new();
    b.update(ActorId::from_node_id(1), 2);
    b.update(ActorId::from_node_id(2), 7);
    a.merge(&b);
    let once = a.clone();
    a.merge(&b);
    assert_eq!(a, once);
    assert!(a.descends(&b));
}

#[test]
fn version_vector_without_listed_dots() {
    let vv = VersionVector::from_dots(&[
        Dot::new(ActorId::from_node_id(1), 4),
        Dot::new(ActorId::from_node_id(2), 7),
    ]);
    let kept = vv.without(&[Dot::new(ActorId::from_node_id(1), 4), Dot::new(ActorId::from_node_id(2), 6)]);
    assert_eq!(kept.get(ActorId::from_node_id(1)), 0);
    assert_eq!(kept.get(ActorId::from_node_id(2)), 7);
    assert_eq!(VersionVector::single(Dot::new(ActorId::from_node_id(3), 1)).to_string(), "v0:3:0:1");
}

#[test]
fn actor_id_errors_have_messages() {
    assert_eq!(ActorIdError::InvalidLength(3).to_string(), "Invalid ActorId length: 3 (expected 4)");
    assert_eq!(ActorIdError::InvalidFormat.to_string(), "Invalid ActorId format");
}

#[test]
fn actor_id_is_parsed_from_text() {
    assert_eq!("v0:12:3".parse::<ActorId>(), Ok(ActorId::new(12, 3)));
    assert_eq!("v0:12".parse::<ActorId>(), Err(ActorIdError::InvalidFormat));
    assert_eq!(VersionVector::default(), VersionVector::new());
}
