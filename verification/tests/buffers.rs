use bigsets::buffers::{PendingBuffer, UnackedBuffer};
use bigsets::types::{ActorId, Dot, OpType, Operation, VersionVector};
use bytes::Bytes;
use std::time::Instant;

fn create_test_op(set_id: u64, counter: u64) -> Operation {
    Operation {
        set_name: set_id.to_string(),
        op_type: OpType::Add {
            elements: vec![Bytes::from("test")],
            dot: Dot { actor_id: ActorId::from_node_id(1), counter },
            removed_dots: vec![],
        },
        context: VersionVector::new(),
    }
}

#[test]
fn test_unacked_buffer_new() {
    let buffer = UnackedBuffer::new();
    assert_eq!(buffer.total_count(), 0);
    assert!(buffer.peers().is_empty());
}

#[test]
fn test_unacked_buffer_add() {
    let mut buffer = UnackedBuffer::new();
    let op1 = create_test_op(1, 1);
    let op2 = create_test_op(1, 2);

    buffer.add("peer1".to_string(), op1);
    buffer.add("peer1".to_string(), op2);

    assert_eq!(buffer.peer_count("peer1"), 2);
    assert_eq!(buffer.total_count(), 2);
}

#[test]
fn test_unacked_buffer_add_multiple_peers() {
    let mut buffer = UnackedBuffer::new();

    buffer.add("peer1".to_string(), create_test_op(1, 1));
    buffer.add("peer2".to_string(), create_test_op(2, 1));
    buffer.add("peer1".to_string(), create_test_op(1, 2));

    assert_eq!(buffer.peer_count("peer1"), 2);
    assert_eq!(buffer.peer_count("peer2"), 1);
    assert_eq!(buffer.total_count(), 3);
    assert_eq!(buffer.peers().len(), 2);
}

#[test]
fn test_unacked_buffer_remove() {
    let mut buffer = UnackedBuffer::new();
    buffer.add("peer1".to_string(), create_test_op(1, 1));
    buffer.add("peer1".to_string(), create_test_op(1, 2));

    assert!(buffer.remove("peer1", 0));
    assert_eq!(buffer.peer_count("peer1"), 1);

    assert!(buffer.remove("peer1", 0));
    assert_eq!(buffer.peer_count("peer1"), 0);

    assert!(!buffer.remove("peer1", 0));
}

#[test]
fn test_unacked_buffer_get_peer_ops() {
    let mut buffer = UnackedBuffer::new();
    let op1 = create_test_op(1, 1);

    buffer.add("peer1".to_string(), op1.clone());

    let ops = buffer.get_peer_ops("peer1").unwrap();
    assert_eq!(ops.len(), 1);
    assert_eq!(ops[0].0.set_name, "1");

    assert!(buffer.get_peer_ops("peer2").is_none());
}

#[test]
fn test_unacked_buffer_clear_peer() {
    let mut buffer = UnackedBuffer::new();
    buffer.add("peer1".to_string(), create_test_op(1, 1));
    buffer.add("peer2".to_string(), create_test_op(2, 1));

    buffer.clear_peer("peer1");

    assert_eq!(buffer.peer_count("peer1"), 0);
    assert_eq!(buffer.peer_count("peer2"), 1);
    assert_eq!(buffer.total_count(), 1);
}

#[test]
fn test_unacked_buffer_clear_all() {
    let mut buffer = UnackedBuffer::new();
    buffer.add("peer1".to_string(), create_test_op(1, 1));
    buffer.add("peer2".to_string(), create_test_op(2, 1));

    buffer.clear_all();

    assert_eq!(buffer.total_count(), 0);
    assert!(buffer.peers().is_empty());
}

#[test]
fn test_pending_buffer_new() {
    let buffer = PendingBuffer::new(10);
    assert!(buffer.is_empty());
    assert_eq!(buffer.len(), 0);
    assert_eq!(buffer.max_size(), 10);
    assert!(!buffer.is_full());
}

#[test]
fn test_pending_buffer_add() {
    let mut buffer = PendingBuffer::new(3);

    assert!(buffer.add(create_test_op(1, 1)));
    assert_eq!(buffer.len(), 1);
    assert!(!buffer.is_full());

    assert!(buffer.add(create_test_op(1, 2)));
    assert_eq!(buffer.len(), 2);
    assert!(!buffer.is_full());

    assert!(buffer.add(create_test_op(1, 3)));
    assert_eq!(buffer.len(), 3);
    assert!(buffer.is_full());
}

#[test]
fn test_pending_buffer_overflow() {
    let mut buffer = PendingBuffer::new(2);

    assert!(buffer.add(create_test_op(1, 1)));
    assert!(buffer.add(create_test_op(1, 2)));
    assert!(!buffer.add(create_test_op(1, 3)));

    assert_eq!(buffer.len(), 2);
    assert!(buffer.is_full());
}

#[test]
fn test_pending_buffer_remove() {
    let mut buffer = PendingBuffer::new(10);
    buffer.add(create_test_op(1, 1));
    buffer.add(create_test_op(1, 2));
    buffer.add(create_test_op(1, 3));

    let op = buffer.remove(1).unwrap();
    assert_eq!(op.set_name, "1");
    assert_eq!(buffer.len(), 2);

    assert!(buffer.remove(5).is_none());
}

#[test]
fn test_pending_buffer_retain() {
    let mut buffer = PendingBuffer::new(10);
    buffer.add(create_test_op(1, 1));
    buffer.add(create_test_op(2, 2));
    buffer.add(create_test_op(1, 3));

    buffer.retain(|op| op.set_name == "1");

    assert_eq!(buffer.len(), 2);
    assert!(buffer.operations().iter().all(|op| op.set_name == "1"));
}

#[test]
fn test_pending_buffer_clear() {
    let mut buffer = PendingBuffer::new(10);
    buffer.add(create_test_op(1, 1));
    buffer.add(create_test_op(1, 2));

    buffer.clear();

    assert!(buffer.is_empty());
    assert_eq!(buffer.len(), 0);
}

#[test]
fn test_pending_buffer_drain() {
    let mut buffer = PendingBuffer::new(10);
    buffer.add(create_test_op(1, 1));
    buffer.add(create_test_op(1, 2));

    let ops = buffer.drain();

    assert_eq!(ops.len(), 2);
    assert!(buffer.is_empty());
    assert_eq!(buffer.len(), 0);
}

#[test]
fn test_pending_buffer_operations() {
    let mut buffer = PendingBuffer::new(10);
    buffer.add(create_test_op(1, 1));
    buffer.add(create_test_op(2, 2));

    let ops = buffer.operations();
    assert_eq!(ops.len(), 2);
    assert_eq!(ops[0].set_name, "1");
    assert_eq!(ops[1].set_name, "2");
}

#[test]
fn test_unacked_buffer_retry_tracking() {
    let mut buffer = UnackedBuffer::new();
    buffer.add("peer1".to_string(), create_test_op(1, 1));

    if let Some(ops) = buffer.get_peer_ops_mut("peer1") {
        ops[0].2 += 1;
    }

    let ops = buffer.get_peer_ops("peer1").unwrap();
    assert_eq!(ops[0].2, 1);
}

#[test]
fn test_unacked_buffer_timestamp_tracking() {
    let mut buffer = UnackedBuffer::new();
    let before = Instant::now();
    buffer.add("peer1".to_string(), create_test_op(1, 1));
    let after = Instant::now();

    let ops = buffer.get_peer_ops("peer1").unwrap();
    assert!(ops[0].1 >= before);
    assert!(ops[0].1 <= after);
}

#[test]
fn pending_buffer_keeps_order_and_retains_in_order() {
    let mut buffer = PendingBuffer::new(4);
    for c in 1..=4 {
        assert!(buffer.add(create_test_op(c % 2, c)));
    }
    buffer.retain(|op| op.set_name == "0");
    let counters: Vec<u64> = buffer.operations().iter().map(|op| op.op_type.dot().counter).collect();
    assert_eq!(counters, vec![2, 4]);
    buffer.operations_mut().push(create_test_op(9, 9));
    assert_eq!(buffer.len(), 3);
    assert_eq!(buffer.remove(0).unwrap().op_type.dot().counter, 2);
}

#[test]
fn unacked_buffer_keeps_an_emptied_queue_until_cleared() {
    let mut buffer = UnackedBuffer::default();
    buffer.add("p".to_string(), create_test_op(1, 1));
    assert!(buffer.remove("p", 0));
    assert!(!buffer.remove("p", 0));
    assert!(!buffer.remove("q", 0));
    assert_eq!(buffer.peers().len(), 1);
    assert_eq!(buffer.get_peer_ops("p").unwrap().len(), 0);
    buffer.clear_peer("p");
    assert!(buffer.get_peer_ops("p").is_none());
    assert!(buffer.get_peer_ops_mut("p").is_none());
    assert!(buffer.peers().is_empty());
}
