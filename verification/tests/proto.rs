use bigsets::mem_storage::MemStorage;
use bigsets::proto::{
    dot_to_proto, operation_to_proto, proto_to_dot, proto_to_operation, proto_to_version_vector,
    version_vector_to_proto, ProtoBody, ProtoDot, ProtoOpType, ProtoOperation, ProtoVersionVector,
};
use bigsets::server::Server;
use bigsets::types::{ActorId, Dot, VersionVector};
use bytes::Bytes;

fn wire_dot(actor: &[u8], counter: u64) -> ProtoDot {
    ProtoDot { actor_id: Bytes::copy_from_slice(actor), counter }
}

#[test]
fn dots_go_to_the_wire_and_back() {
    let dot = Dot::new(ActorId::new(0x1234, 7), 99);
    let proto = dot_to_proto(&dot);
    assert_eq!(proto, wire_dot(&[0, 0x12, 0x34, 7], 99));
    assert_eq!(proto_to_dot(&proto), Some(dot));
    assert_eq!(proto_to_dot(&wire_dot(&[0, 1, 2], 1)), None);
    assert_eq!(proto_to_dot(&wire_dot(&[0, 1, 2, 3, 4], 1)), None);
}

#[test]
fn version_vectors_go_to_the_wire_in_actor_order() {
    let mut vv = VersionVector::new();
    vv.update(ActorId::from_node_id(2), 5);
    vv.update(ActorId::from_node_id(1), 3);
    let proto = version_vector_to_proto(&vv);
    assert_eq!(proto.entries, vec![wire_dot(&[0, 0, 1, 0], 3), wire_dot(&[0, 0, 2, 0], 5)]);
    assert_eq!(proto_to_version_vector(&proto), Some(vv));
    let twice = ProtoVersionVector {
        entries: vec![wire_dot(&[0, 0, 1, 0], 3), wire_dot(&[0, 0, 1, 0], 2)],
    };
    assert_eq!(proto_to_version_vector(&twice).unwrap().get(ActorId::from_node_id(1)), 2);
    let bad = ProtoVersionVector { entries: vec![wire_dot(&[0, 0, 1, 0], 3), wire_dot(&[1], 2)] };
    assert_eq!(proto_to_version_vector(&bad), None);
}

#[test]
fn operations_go_to_the_wire_and_back() {
    let mut n1 = Server::new(ActorId::new(1, 0), MemStorage::new()).unwrap();
    let items = vec![Bytes::from("x"), Bytes::from("y")];
    let first = n1.sadd("s", &items).unwrap().1.unwrap();
    let second = n1.sadd("s", &items).unwrap().1.unwrap();
    let third = n1.srem("s", &items[..1]).unwrap().1.unwrap();
    for op in [first, second, third] {
        let proto = operation_to_proto(&op);
        assert_eq!(proto.set_name, "s");
        assert_eq!(proto_to_operation(&proto), Some(op));
    }
}

#[test]
fn an_operation_with_a_missing_field_is_refused() {
    let body = ProtoBody {
        elements: vec![Bytes::from("x")],
        dot: Some(wire_dot(&[0, 0, 1, 0], 1)),
        removed_dots: vec![wire_dot(&[9], 1), wire_dot(&[0, 0, 2, 0], 4)],
    };
    let whole = ProtoOperation {
        set_name: "s".to_string(),
        context: Some(ProtoVersionVector { entries: vec![] }),
        op_type: Some(ProtoOpType::Remove(body.clone())),
    };
    let op = proto_to_operation(&whole).unwrap();
    // a removed dot that names no actor is passed over
    assert_eq!(op.op_type.removed_dots_len(), 1);
    assert_eq!(op.op_type.dot(), Dot::new(ActorId::from_node_id(1), 1));

    let mut no_context = whole.clone();
    no_context.context = None;
    assert_eq!(proto_to_operation(&no_context), None);
    let mut no_body = whole.clone();
    no_body.op_type = None;
    assert_eq!(proto_to_operation(&no_body), None);
    let mut no_dot = whole.clone();
    no_dot.op_type = Some(ProtoOpType::Add(ProtoBody { dot: None, ..body.clone() }));
    assert_eq!(proto_to_operation(&no_dot), None);
    let mut bad_dot = whole.clone();
    bad_dot.op_type = Some(ProtoOpType::Add(ProtoBody { dot: Some(wire_dot(&[], 1)), ..body }));
    assert_eq!(proto_to_operation(&bad_dot), None);
    let mut bad_context = whole;
    bad_context.context = Some(ProtoVersionVector { entries: vec![wire_dot(&[1, 2], 1)] });
    assert_eq!(proto_to_operation(&bad_context), None);
}
