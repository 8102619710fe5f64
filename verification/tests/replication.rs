use bigsets::buffers::PendingBuffer;
use bigsets::config::{ClusterConfig, Config, ReplicaInfo};
use bigsets::config::{local_replication_config, local_server_config, local_storage_config};
use bigsets::mem_storage::MemStorage;
use bigsets::replication::{
    apply_in_turn, apply_pass, drain_pending, frame, frame_header, frame_length, peers_of, receive_operation,
    try_apply_buffered, FrameError, PeerSet, Received, ReplicationManager, MAX_FRAME_LEN,
};
use bigsets::text::text_before;
use std::collections::BTreeSet;
use bigsets::server::{CommandResult, Server};
use bigsets::types::{ActorId, OpType, Operation};
use bytes::Bytes;

fn b(s: &str) -> Bytes {
    Bytes::from(s.to_string())
}

fn node(n: u16) -> Server<MemStorage> {
    Server::new(ActorId::new(n, 0), MemStorage::new()).unwrap()
}

fn members(server: &Server<MemStorage>, set: &str) -> Vec<Bytes> {
    match server.smembers(set, None).unwrap() {
        CommandResult::BytesArray(mut items) => {
            items.sort();
            items
        }
        other => panic!("unexpected {:?}", other),
    }
}

fn add(server: &mut Server<MemStorage>, set: &str, items: &[&str]) -> Operation {
    let items: Vec<Bytes> = items.iter().map(|s| b(s)).collect();
    server.sadd(set, &items).unwrap().1.unwrap()
}

fn remove(server: &mut Server<MemStorage>, set: &str, items: &[&str]) -> Option<Operation> {
    let items: Vec<Bytes> = items.iter().map(|s| b(s)).collect();
    server.srem(set, &items).unwrap().1
}

#[test]
fn single_node_add_then_members() {
    let mut n1 = node(1);
    let (result, _) = n1.sadd("s", &[b("a"), b("b"), b("c")]).unwrap();
    match result {
        CommandResult::Done { vv: Some(vv) } => assert_eq!(vv.to_string(), "v0:1:0:1"),
        other => panic!("unexpected {:?}", other),
    }
    assert_eq!(members(&n1, "s"), vec![b("a"), b("b"), b("c")]);
}

#[test]
fn single_node_add_remove_card() {
    let mut n1 = node(1);
    add(&mut n1, "s", &["a"]);
    let (result, op) = n1.srem("s", &[b("a")]).unwrap();
    assert!(op.is_some());
    match result {
        CommandResult::Done { vv: Some(vv) } => assert_eq!(vv.to_string(), "v0:1:0:2"),
        other => panic!("unexpected {:?}", other),
    }
    assert_eq!(n1.scard("s", None).unwrap(), CommandResult::Integer(0));
}

#[test]
fn two_nodes_replicated_add() {
    let mut n1 = node(1);
    let mut n2 = node(2);
    let op = add(&mut n1, "s", &["x"]);
    assert!(op.context.is_empty());
    assert_eq!(n2.apply_remote_operation(op), Ok(true));
    assert_eq!(members(&n2, "s"), vec![b("x")]);
    assert_eq!(n1.version_vector().to_string(), "v0:1:0:1");
    assert_eq!(n2.version_vector().to_string(), "v0:1:0:1");
}

#[test]
fn concurrent_add_and_remove_add_wins() {
    let mut n1 = node(1);
    let mut n2 = node(2);
    let op_add = add(&mut n1, "s", &["x"]);
    // the remove at the second node sees no dot, so it sends nothing
    assert!(remove(&mut n2, "s", &["x"]).is_none());
    assert_eq!(n2.apply_remote_operation(op_add), Ok(true));
    assert_eq!(members(&n1, "s"), vec![b("x")]);
    assert_eq!(members(&n2, "s"), vec![b("x")]);
}

#[test]
fn concurrent_add_and_remove_of_a_seen_element_add_wins() {
    let mut n1 = node(1);
    let mut n2 = node(2);
    let first = add(&mut n1, "s", &["x"]);
    assert_eq!(n2.apply_remote_operation(first), Ok(true));
    // now both hold x; one adds it again while the other removes it
    let again = add(&mut n1, "s", &["x"]);
    let removal = remove(&mut n2, "s", &["x"]).unwrap();
    assert_eq!(members(&n2, "s"), Vec::<Bytes>::new());
    assert_eq!(n1.apply_remote_operation(removal), Ok(true));
    assert_eq!(n2.apply_remote_operation(again), Ok(true));
    assert_eq!(members(&n1, "s"), vec![b("x")]);
    assert_eq!(members(&n2, "s"), vec![b("x")]);
}

#[test]
fn observed_remove_removes_everywhere() {
    let mut n1 = node(1);
    let mut n2 = node(2);
    let op_add = add(&mut n1, "s", &["x"]);
    assert_eq!(n2.apply_remote_operation(op_add), Ok(true));
    let op_rem = remove(&mut n2, "s", &["x"]).unwrap();
    match &op_rem.op_type {
        OpType::Remove { removed_dots, .. } => assert_eq!(removed_dots.len(), 1),
        other => panic!("unexpected {:?}", other),
    }
    assert_eq!(n1.apply_remote_operation(op_rem), Ok(true));
    assert_eq!(members(&n1, "s"), Vec::<Bytes>::new());
    assert_eq!(members(&n2, "s"), Vec::<Bytes>::new());
}

#[test]
fn out_of_order_delivery_is_buffered_and_drained() {
    let mut n1 = node(1);
    let mut n3 = node(3);
    let mut buffer = PendingBuffer::new(10);
    let op1 = add(&mut n1, "s", &["x"]);
    let op2 = add(&mut n1, "s", &["y"]);
    assert!(matches!(receive_operation(&mut n3, &mut buffer, op2), Received::Buffered));
    assert_eq!(buffer.len(), 1);
    assert_eq!(members(&n3, "s"), Vec::<Bytes>::new());
    assert!(matches!(
        receive_operation(&mut n3, &mut buffer, op1),
        Received::Applied { drained: 1, failures: 0 }
    ));
    assert!(buffer.is_empty());
    assert_eq!(members(&n3, "s"), vec![b("x"), b("y")]);
}

#[test]
fn a_full_buffer_drops_the_operation() {
    let mut n1 = node(1);
    let mut n2 = node(2);
    let mut buffer = PendingBuffer::new(1);
    add(&mut n1, "s", &["a"]);
    let op2 = add(&mut n1, "s", &["b"]);
    let op3 = add(&mut n1, "s", &["c"]);
    assert!(matches!(receive_operation(&mut n2, &mut buffer, op2), Received::Buffered));
    assert!(matches!(receive_operation(&mut n2, &mut buffer, op3), Received::BufferFull));
    assert_eq!(buffer.len(), 1);
}

#[test]
fn applying_twice_is_applying_once() {
    let mut n1 = node(1);
    let mut n2 = node(2);
    let op = add(&mut n1, "s", &["x"]);
    assert_eq!(n2.apply_remote_operation(op.clone()), Ok(true));
    let vv = n2.version_vector().clone();
    let before = members(&n2, "s");
    // the second time nothing changes, and the answer is still "applied"
    assert_eq!(n2.apply_remote_operation(op), Ok(true));
    assert_eq!(n2.version_vector(), &vv);
    assert_eq!(members(&n2, "s"), before);
}

#[test]
fn replicas_converge_whatever_the_order() {
    let mut n1 = node(1);
    let mut n2 = node(2);
    let a1 = add(&mut n1, "s", &["x", "y"]);
    let a2 = add(&mut n1, "t", &["y"]);
    let b1 = add(&mut n2, "s", &["y", "z"]);
    let b2 = remove(&mut n2, "s", &["z"]).unwrap();

    let mut left = node(3);
    for op in [a1.clone(), a2.clone(), b1.clone(), b2.clone()] {
        assert_eq!(left.apply_remote_operation(op), Ok(true));
    }
    let mut right = node(4);
    for op in [b1.clone(), a1.clone(), b2.clone(), a2.clone()] {
        assert_eq!(right.apply_remote_operation(op), Ok(true));
    }
    assert_eq!(members(&left, "s"), members(&right, "s"));
    assert_eq!(members(&left, "t"), members(&right, "t"));
    assert_eq!(members(&left, "s"), vec![b("x"), b("y")]);
    assert_eq!(left.version_vector(), right.version_vector());

    // and the writers converge with them
    for op in [b1, b2] {
        assert_eq!(n1.apply_remote_operation(op), Ok(true));
    }
    for op in [a1, a2] {
        assert_eq!(n2.apply_remote_operation(op), Ok(true));
    }
    assert_eq!(members(&n1, "s"), members(&left, "s"));
    assert_eq!(members(&n2, "s"), members(&left, "s"));
    assert_eq!(members(&n2, "t"), vec![b("y")]);
}

#[test]
fn the_context_is_taken_before_the_dot_is_minted() {
    let mut n1 = node(1);
    let op1 = add(&mut n1, "s", &["x"]);
    let op2 = add(&mut n1, "s", &["x"]);
    assert_eq!(op1.context.to_string(), "");
    assert_eq!(op2.context.to_string(), "v0:1:0:1");
    assert_eq!(op2.op_type.dot().counter, 2);
    match op2.op_type {
        OpType::Add { removed_dots, .. } => assert_eq!(removed_dots, vec![op1.op_type.dot()]),
        other => panic!("unexpected {:?}", other),
    }
}

#[test]
fn drain_runs_passes_until_nothing_moves() {
    let mut n1 = node(1);
    let mut n2 = node(2);
    let op1 = add(&mut n1, "s", &["a"]);
    let op2 = add(&mut n1, "s", &["b"]);
    let op3 = add(&mut n1, "s", &["c"]);
    let mut stray = node(9);
    add(&mut stray, "s", &["q"]);
    let never = add(&mut stray, "s", &["r"]);

    let mut buffer = PendingBuffer::new(10);
    // in the buffer in the wrong order: one pass applies only the first
    buffer.add(op3);
    buffer.add(never);
    buffer.add(op2);
    assert_eq!(try_apply_buffered(&mut n2, &mut buffer), 0);
    assert_eq!(n2.apply_remote_operation(op1), Ok(true));
    let report = apply_pass(&mut n2, &mut buffer);
    assert_eq!((report.applied, report.failures), (1, 0));
    assert_eq!(buffer.len(), 2);
    let report = drain_pending(&mut n2, &mut buffer);
    assert_eq!((report.applied, report.failures), (1, 0));
    assert_eq!(buffer.len(), 1);
    assert_eq!(buffer.operations()[0].op_type.dot().actor_id, ActorId::new(9, 0));
    assert_eq!(members(&n2, "s"), vec![b("a"), b("b"), b("c")]);
}

#[test]
fn frames_carry_their_length_first() {
    assert_eq!(frame(b"abc"), Ok(vec![0, 0, 0, 3, b'a', b'b', b'c']));
    assert_eq!(frame(b""), Err(FrameError::Empty));
    assert_eq!(frame_header(0x0102_03), Ok([0, 1, 2, 3]));
    assert_eq!(frame_header(MAX_FRAME_LEN), Ok([1, 0, 0, 0]));
    assert_eq!(frame_header(MAX_FRAME_LEN + 1), Err(FrameError::TooLong));
    assert_eq!(frame_length(&[0, 0, 1, 2]), Ok(258));
    assert_eq!(frame_length(&[0, 0, 0, 0]), Err(FrameError::Empty));
    assert_eq!(frame_length(&[1, 0, 0, 0]), Ok(MAX_FRAME_LEN));
    assert_eq!(frame_length(&[1, 0, 0, 1]), Err(FrameError::TooLong));
    assert_eq!(frame_length(&[255, 255, 255, 255]), Err(FrameError::TooLong));
}

#[test]
fn the_manager_notes_what_was_not_sent() {
    let replicas = vec![
        ReplicaInfo { node_id: 1, epoch: 0, addr: "a:1".to_string() },
        ReplicaInfo { node_id: 2, epoch: 0, addr: "a:2".to_string() },
        ReplicaInfo { node_id: 2, epoch: 1, addr: "a:3".to_string() },
    ];
    let config = Config {
        server: local_server_config(2, "db".to_string()),
        cluster: ClusterConfig { replicas },
        replication: local_replication_config(),
        storage: local_storage_config(),
    };
    let peers = peers_of(&config);
    assert_eq!(peers.iter().map(|p| p.addr.as_str()).collect::<Vec<_>>(), vec!["a:1", "a:3"]);
    let mut manager = ReplicationManager::new(peers, 7);
    assert_eq!(manager.pending_buffer().max_size(), 7);
    assert_eq!(manager.peers().len(), 2);
    let mut n1 = node(1);
    let op = add(&mut n1, "s", &["x"]);
    manager.record_unsent(1, op.clone());
    manager.record_unsent(1, op);
    assert_eq!(manager.unacked_buffer().peer_count("v0:2:1"), 2);
    assert_eq!(manager.unacked_buffer().total_count(), 2);
}

fn replica(node_id: u16, epoch: u8, addr: &str) -> ReplicaInfo {
    ReplicaInfo { node_id, epoch, addr: addr.to_string() }
}

#[test]
fn the_manager_holds_its_peers_in_order_and_once() {
    let given = vec![
        replica(3, 0, "c:1"),
        replica(1, 2, "a:9"),
        replica(1, 0, "b:1"),
        replica(3, 0, "c:1"),
        replica(1, 0, "a:1"),
        replica(1, 2, "a:9"),
        replica(1, 0, "a:10"),
        replica(1, 0, "a"),
    ];
    let expected: Vec<ReplicaInfo> =
        given.iter().cloned().collect::<BTreeSet<_>>().into_iter().collect();
    let manager = ReplicationManager::new(given.clone(), 4);
    assert_eq!(manager.peers(), expected.as_slice());
    assert_eq!(
        manager.peers(),
        &[
            replica(1, 0, "a"),
            replica(1, 0, "a:1"),
            replica(1, 0, "a:10"),
            replica(1, 0, "b:1"),
            replica(1, 2, "a:9"),
            replica(3, 0, "c:1"),
        ]
    );
    let set = PeerSet::from_vec(given);
    assert_eq!(set.len(), 6);
    assert_eq!(set.as_slice(), expected.as_slice());
    assert_eq!(PeerSet::from_vec(Vec::new()).len(), 0);
}

#[test]
fn replicas_are_ordered_by_node_epoch_and_address() {
    let all = vec![
        replica(1, 0, "a"),
        replica(1, 0, "b"),
        replica(1, 1, "a"),
        replica(2, 0, ""),
        replica(2, 0, "\u{e9}"),
        replica(2, 0, "z"),
    ];
    for x in &all {
        for y in &all {
            assert_eq!(x.before(y), x < y, "{:?} {:?}", x, y);
            assert_eq!(x.same(y), x == y, "{:?} {:?}", x, y);
        }
    }
}

#[test]
fn texts_are_ordered_by_their_bytes() {
    let texts = ["", "a", "ab", "abc", "b", "B", "a:10", "a:9", "\u{e9}", "z", "\u{1f600}", "\u{ffff}"];
    for x in texts {
        for y in texts {
            assert_eq!(text_before(x, y), x < y, "{:?} {:?}", x, y);
        }
    }
    assert!(text_before("", "a"));
    assert!(!text_before("a", ""));
    assert!(!text_before("a", "a"));
    assert!(text_before("a:10", "a:9"));
}

#[test]
fn operations_applied_in_turn_converge_in_every_order() {
    let mut n1 = node(1);
    let mut n2 = node(2);
    let a1 = add(&mut n1, "s", &["x", "y"]);
    let a2 = remove(&mut n1, "s", &["x"]).unwrap();
    let b1 = add(&mut n2, "s", &["x"]);
    let b2 = add(&mut n2, "t", &["w"]);
    let orders = [
        vec![a1.clone(), a2.clone(), b1.clone(), b2.clone()],
        vec![b1.clone(), b2.clone(), a1.clone(), a2.clone()],
        vec![a1.clone(), b1.clone(), a2.clone(), b2.clone()],
        vec![b1.clone(), a1.clone(), b2.clone(), a2.clone()],
    ];
    for order in orders.iter() {
        let mut replica = node(7);
        assert_eq!(apply_in_turn(&mut replica, order), Ok(()));
        // the add of the other replica, which the remove had not seen, wins
        assert_eq!(members(&replica, "s"), vec![b("x"), b("y")]);
        assert_eq!(members(&replica, "t"), vec![b("w")]);
        assert_eq!(replica.version_vector().get(ActorId::new(1, 0)), 2);
        assert_eq!(replica.version_vector().get(ActorId::new(2, 0)), 2);
    }
    // an operation that comes before what it depends on is passed over
    let mut replica = node(7);
    assert_eq!(apply_in_turn(&mut replica, &[a2, a1]), Ok(()));
    assert_eq!(members(&replica, "s"), vec![b("x"), b("y")]);
    assert_eq!(apply_in_turn(&mut replica, &[]), Ok(()));
}

#[test]
fn add_wins_and_only_the_dot_of_the_add_supports_the_value() {
    let mut adder = node(1);
    let mut remover = node(2);
    let seed = add(&mut adder, "s", &["x"]);
    assert_eq!(remover.apply_remote_operation(seed), Ok(true));
    let op_add = add(&mut adder, "s", &["x"]);
    let op_remove = remove(&mut remover, "s", &["x"]).unwrap();
    assert_eq!(adder.apply_remote_operation(op_remove), Ok(true));
    assert_eq!(remover.apply_remote_operation(op_add.clone()), Ok(true));
    assert_eq!(members(&adder, "s"), vec![b("x")]);
    assert_eq!(members(&remover, "s"), vec![b("x")]);
    // a later add at either replica displaces the dot of that add alone
    let dot = op_add.op_type.dot();
    for replica in [&mut adder, &mut remover] {
        match add(replica, "s", &["x"]).op_type {
            OpType::Add { removed_dots, .. } => assert_eq!(removed_dots, vec![dot]),
            other => panic!("unexpected {:?}", other),
        }
    }
}
