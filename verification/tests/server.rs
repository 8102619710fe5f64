use bigsets::buffers::PendingBuffer;
use bigsets::mem_storage::MemStorage;
use bigsets::replication::{
    apply_in_turn, drain_pending, pass_step, receive_operation, try_apply_buffered, DrainReport, Received,
};
use bigsets::server::{CommandResult, Server};
use bigsets::storage::{Storage, StorageError};
use bigsets::store_model::StoreView;
use bigsets::types::{ActorId, Dot, OpType, Operation, VersionVector};
use bytes::Bytes;

/// A store that refuses every call.
struct Broken;

fn broken() -> StorageError {
    StorageError { message: "disk full".to_string() }
}

impl Storage for Broken {
    // The view is a notion of the proofs; nothing calls it when the program runs.
    fn view(&self) -> StoreView {
        panic!("the view of a store is never computed")
    }

    fn load_vv(&self) -> Result<VersionVector, StorageError> {
        Ok(VersionVector::new())
    }

    fn add_elements(&mut self, _: &str, _: &[Bytes], _: Dot) -> Result<Vec<Dot>, StorageError> {
        Err(broken())
    }

    fn remove_elements(&mut self, _: &str, _: &[Bytes], _: Dot) -> Result<Vec<Dot>, StorageError> {
        Err(broken())
    }

    fn replicate_add(&mut self, _: &str, _: &[Bytes], _: &[Dot], _: Dot) -> Result<(), StorageError> {
        Err(broken())
    }

    fn replicate_remove(&mut self, _: &str, _: &[Bytes], _: &[Dot], _: Dot) -> Result<(), StorageError> {
        Err(broken())
    }

    fn get_elements(&self, _: &str) -> Result<Vec<Bytes>, StorageError> {
        Err(broken())
    }

    fn count_elements(&self, _: &str) -> Result<u64, StorageError> {
        Err(broken())
    }

    fn is_member(&self, _: &str, _: &Bytes) -> Result<bool, StorageError> {
        Err(broken())
    }

    fn are_members(&self, _: &str, _: &[Bytes]) -> Result<Vec<bool>, StorageError> {
        Err(broken())
    }
}

fn server(node: u16) -> Server<MemStorage> {
    Server::new(ActorId::new(node, 0), MemStorage::new()).unwrap()
}

#[test]
fn test_server_sadd_returns_operation() {
    let actor_id = ActorId::new(1, 0);
    let mut server = Server::new(actor_id, MemStorage::new()).unwrap();

    let members = vec![Bytes::from("foo"), Bytes::from("bar")];
    let (result, operation) = server.sadd("myset", &members).unwrap();
    assert!(matches!(result, CommandResult::Done { vv: Some(_) }));

    assert!(operation.is_some(), "SADD should return an operation for replication");
    let op = operation.unwrap();
    assert_eq!(op.set_name, "myset");

    match op.op_type {
        OpType::Add { elements, dot, .. } => {
            assert_eq!(elements.len(), 2);
            assert!(elements.contains(&Bytes::from("foo")));
            assert!(elements.contains(&Bytes::from("bar")));
            assert_eq!(dot.actor_id, actor_id);
        }
        _ => panic!("Expected Add operation"),
    }
}

#[test]
fn test_server_apply_remote_operation() {
    let mut server1 = server(1);
    let mut server2 = server(2);

    let members = vec![Bytes::from("foo"), Bytes::from("bar")];
    let (_result, operation) = server1.sadd("myset", &members).unwrap();
    let op = operation.expect("Should have operation");

    let apply_result = server2.apply_remote_operation(op);
    assert!(apply_result.is_ok(), "Should successfully apply remote operation");

    let members_result = server2.smembers("myset", None).unwrap();
    match members_result {
        CommandResult::BytesArray(bytes) => {
            assert_eq!(bytes.len(), 2);
            assert!(bytes.contains(&Bytes::from("foo")));
            assert!(bytes.contains(&Bytes::from("bar")));
        }
        _ => panic!("Expected BytesArray result"),
    }
}

#[test]
fn storage_failure_leaves_the_version_vector() {
    let mut server = Server::new(ActorId::new(1, 0), Broken).unwrap();
    let members = vec![Bytes::from("a")];
    assert_eq!(server.sadd("s", &members).unwrap_err(), broken());
    assert!(server.version_vector().is_empty());
    assert_eq!(server.srem("s", &members).unwrap_err(), broken());
    assert!(server.version_vector().is_empty());
    assert_eq!(server.scard("s", None).unwrap_err(), broken());

    let mut other = self::server(2);
    let (_, op) = other.sadd("s", &members).unwrap();
    assert_eq!(server.apply_remote_operation(op.unwrap()).unwrap_err(), broken());
    assert!(server.version_vector().is_empty());
}

/// A store in memory that fails every write to the set "bad".
struct Flaky {
    inner: MemStorage,
}

impl Flaky {
    fn guard(set_name: &str) -> Result<(), StorageError> {
        if set_name == "bad" {
            Err(broken())
        } else {
            Ok(())
        }
    }
}

impl Storage for Flaky {
    fn view(&self) -> StoreView {
        panic!("the view of a store is never computed")
    }

    fn load_vv(&self) -> Result<VersionVector, StorageError> {
        self.inner.load_vv()
    }

    fn add_elements(&mut self, s: &str, e: &[Bytes], d: Dot) -> Result<Vec<Dot>, StorageError> {
        Self::guard(s)?;
        self.inner.add_elements(s, e, d)
    }

    fn remove_elements(&mut self, s: &str, e: &[Bytes], d: Dot) -> Result<Vec<Dot>, StorageError> {
        Self::guard(s)?;
        self.inner.remove_elements(s, e, d)
    }

    fn replicate_add(&mut self, s: &str, e: &[Bytes], r: &[Dot], d: Dot) -> Result<(), StorageError> {
        Self::guard(s)?;
        self.inner.replicate_add(s, e, r, d)
    }

    fn replicate_remove(&mut self, s: &str, e: &[Bytes], r: &[Dot], d: Dot) -> Result<(), StorageError> {
        Self::guard(s)?;
        self.inner.replicate_remove(s, e, r, d)
    }

    fn get_elements(&self, s: &str) -> Result<Vec<Bytes>, StorageError> {
        self.inner.get_elements(s)
    }

    fn count_elements(&self, s: &str) -> Result<u64, StorageError> {
        self.inner.count_elements(s)
    }

    fn is_member(&self, s: &str, e: &Bytes) -> Result<bool, StorageError> {
        self.inner.is_member(s, e)
    }

    fn are_members(&self, s: &str, e: &[Bytes]) -> Result<Vec<bool>, StorageError> {
        self.inner.are_members(s, e)
    }
}

#[test]
fn a_failing_store_is_reported_and_the_operation_kept() {
    let mut writer = server(1);
    let bad = writer.sadd("bad", &[Bytes::from("x")]).unwrap().1.unwrap();
    let good = writer.sadd("good", &[Bytes::from("y")]).unwrap().1.unwrap();
    let last = writer.sadd("good", &[Bytes::from("z")]).unwrap().1.unwrap();

    let mut receiver = Server::new(ActorId::new(2, 0), Flaky { inner: MemStorage::new() }).unwrap();
    let mut buffer = PendingBuffer::new(8);
    match receive_operation(&mut receiver, &mut buffer, bad.clone()) {
        Received::Failed(e) => assert_eq!(e, broken()),
        other => panic!("unexpected {:?}", other),
    }
    assert!(receiver.version_vector().is_empty());
    assert!(buffer.is_empty());

    // waiting operations: the one that fails stays, and so do those after it
    buffer.add(bad);
    buffer.add(good);
    buffer.add(last);
    let report = drain_pending(&mut receiver, &mut buffer);
    assert_eq!(report.applied, 0);
    assert_eq!(report.failures, 1);
    assert_eq!(buffer.len(), 3);
}

#[test]
fn server_reports_its_actor_and_store() {
    let mut s = server(5);
    assert_eq!(s.actor_id(), ActorId::new(5, 0));
    assert!(s.can_write());
    s.sadd("s", &[Bytes::from("x")]).unwrap();
    assert_eq!(s.storage().get_elements("s").unwrap(), vec![Bytes::from("x")]);
    assert_eq!(s.storage().load_vv().unwrap(), s.version_vector().clone());
    assert!(s.ready(None));
    assert!(s.ready(Some(&s.version_vector().clone())));
}

#[test]
fn outcomes_follow_the_answer_of_the_store() {
    let actor = ActorId::new(1, 0);
    let dot = Dot::new(actor, 3);
    let members = vec![Bytes::from("x")];

    let mut vv = VersionVector::new();
    let kept = Server::<MemStorage>::conclude_add(
        &mut vv,
        "s",
        &members,
        VersionVector::new(),
        dot,
        Err(broken()),
    );
    assert_eq!(kept.unwrap_err(), broken());
    assert!(vv.is_empty());

    let (result, op) = Server::<MemStorage>::conclude_add(
        &mut vv,
        "s",
        &members,
        VersionVector::new(),
        dot,
        Ok(vec![Dot::new(actor, 1)]),
    )
    .unwrap();
    assert_eq!(vv.get(actor), 3);
    assert_eq!(result, CommandResult::Done { vv: Some(vv.clone()) });
    let op = op.unwrap();
    assert_eq!(op.op_type, OpType::Add { elements: members.clone(), dot, removed_dots: vec![Dot::new(actor, 1)] });

    let mut vv = VersionVector::new();
    let (_, op) = Server::<MemStorage>::conclude_remove(
        &mut vv,
        "s",
        &members,
        VersionVector::new(),
        dot,
        Ok(vec![]),
    )
    .unwrap();
    assert!(op.is_none());
    assert_eq!(vv.get(actor), 3);
    let (_, op) = Server::<MemStorage>::conclude_remove(
        &mut vv,
        "s",
        &members,
        VersionVector::new(),
        Dot::new(actor, 4),
        Ok(vec![dot]),
    )
    .unwrap();
    assert_eq!(
        op.unwrap().op_type,
        OpType::Remove { elements: members, dot: Dot::new(actor, 4), removed_dots: vec![dot] }
    );

    let mut vv = VersionVector::new();
    assert_eq!(Server::<MemStorage>::conclude_remote(&mut vv, dot, Ok(())), Ok(true));
    assert_eq!(vv.get(actor), 3);
    assert_eq!(Server::<MemStorage>::conclude_remote(&mut vv, Dot::new(actor, 9), Err(broken())), Err(broken()));
    assert_eq!(vv.get(actor), 3);

    assert_eq!(Server::<MemStorage>::conclude_count(Ok(7)), Ok(CommandResult::Integer(7)));
    assert_eq!(
        Server::<MemStorage>::conclude_count(Ok(u64::MAX)),
        Err(StorageError { message: "count out of range".to_string() })
    );
    assert_eq!(Server::<MemStorage>::conclude_count(Err(broken())), Err(broken()));
}

#[test]
fn a_server_starts_with_the_vector_that_was_read() {
    let actor = ActorId::new(4, 1);
    let mut read = VersionVector::new();
    read.update(ActorId::new(2, 0), 6);
    let server = Server::conclude_new(actor, MemStorage::new(), Ok(read.clone())).unwrap();
    assert_eq!(server.actor_id(), actor);
    assert_eq!(server.version_vector(), &read);
    assert!(Server::conclude_new(actor, MemStorage::new(), Err(broken())).is_err_and(|e| e == broken()));
}

#[test]
fn a_pass_moves_on_by_the_answer_of_the_server() {
    let mut writer = server(1);
    let first = writer.sadd("s", &[Bytes::from("x")]).unwrap().1.unwrap();
    let second = writer.sadd("s", &[Bytes::from("y")]).unwrap().1.unwrap();
    let mut buffer = PendingBuffer::new(8);
    buffer.add(first);
    buffer.add(second.clone());
    let mut report = DrainReport { applied: 0, failures: 0 };

    assert_eq!(pass_step(&mut buffer, &mut report, 0, Ok(false)), 1);
    assert_eq!(buffer.len(), 2);
    assert_eq!(report, DrainReport { applied: 0, failures: 0 });

    assert_eq!(pass_step(&mut buffer, &mut report, 1, Err(broken())), 2);
    assert_eq!(buffer.len(), 2);
    assert_eq!(report, DrainReport { applied: 0, failures: 1 });

    assert_eq!(pass_step(&mut buffer, &mut report, 0, Ok(true)), 0);
    assert_eq!(buffer.len(), 1);
    assert_eq!(buffer.operations()[0].op_type.dot(), second.op_type.dot());
    assert_eq!(report, DrainReport { applied: 1, failures: 1 });

    let mut full = DrainReport { applied: usize::MAX, failures: usize::MAX };
    assert_eq!(pass_step(&mut buffer, &mut full, 0, Err(broken())), 1);
    assert_eq!(pass_step(&mut buffer, &mut full, 0, Ok(true)), 0);
    assert_eq!(full, DrainReport { applied: usize::MAX, failures: usize::MAX });
    assert!(buffer.is_empty());
}

#[test]
fn the_failures_of_the_drain_come_with_the_operation() {
    let mut writer = server(1);
    let good = writer.sadd("good", &[Bytes::from("x")]).unwrap().1.unwrap();
    let bad = writer.sadd("bad", &[Bytes::from("y")]).unwrap().1.unwrap();
    let last = writer.sadd("good", &[Bytes::from("z")]).unwrap().1.unwrap();

    let mut receiver = Server::new(ActorId::new(2, 0), Flaky { inner: MemStorage::new() }).unwrap();
    let mut buffer = PendingBuffer::new(8);
    assert!(matches!(receive_operation(&mut receiver, &mut buffer, last), Received::Buffered));
    assert!(matches!(receive_operation(&mut receiver, &mut buffer, bad), Received::Buffered));
    assert_eq!(try_apply_buffered(&mut receiver, &mut buffer), 0);
    match receive_operation(&mut receiver, &mut buffer, good) {
        Received::Applied { drained, failures } => assert_eq!((drained, failures), (0, 1)),
        other => panic!("unexpected {:?}", other),
    }
    assert_eq!(buffer.len(), 2);
    assert_eq!(receiver.version_vector().get(ActorId::new(1, 0)), 1);
    assert_eq!(receiver.smembers("good", None).unwrap(), CommandResult::BytesArray(vec![Bytes::from("x")]));
}

#[test]
fn applying_in_turn_stops_where_the_store_fails() {
    let mut writer = server(1);
    let good = writer.sadd("good", &[Bytes::from("x")]).unwrap().1.unwrap();
    let bad = writer.sadd("bad", &[Bytes::from("y")]).unwrap().1.unwrap();
    let last = writer.sadd("good", &[Bytes::from("z")]).unwrap().1.unwrap();
    let mut receiver = Server::new(ActorId::new(2, 0), Flaky { inner: MemStorage::new() }).unwrap();
    assert_eq!(apply_in_turn(&mut receiver, &[good, bad, last]), Err(broken()));
    assert_eq!(receiver.version_vector().get(ActorId::new(1, 0)), 1);
    assert_eq!(receiver.smembers("good", None).unwrap(), CommandResult::BytesArray(vec![Bytes::from("x")]));
}

#[test]
fn a_replica_whose_counter_is_spent_writes_no_more() {
    let actor = ActorId::new(1, 0);
    let mut s = server(1);
    let spent = Operation {
        set_name: "s".to_string(),
        op_type: OpType::Add {
            elements: vec![Bytes::from("x")],
            dot: Dot::new(actor, u64::MAX),
            removed_dots: vec![],
        },
        context: VersionVector::new(),
    };
    assert_eq!(s.apply_remote_operation(spent), Ok(true));
    assert!(!s.can_write());
    let before = s.version_vector().clone();
    let answer = CommandResult::Error("ERR actor counter exhausted".to_string());
    assert_eq!(s.sadd("s", &[Bytes::from("y")]), Ok((answer.clone(), None)));
    assert_eq!(s.srem("s", &[Bytes::from("x")]), Ok((answer, None)));
    assert_eq!(s.version_vector(), &before);
    assert_eq!(s.smembers("s", None).unwrap(), CommandResult::BytesArray(vec![Bytes::from("x")]));
    // no members is the other error, whatever the counter
    assert_eq!(
        s.sadd("s", &[]),
        Ok((CommandResult::Error("ERR wrong number of arguments for 'sadd' command".to_string()), None))
    );
    assert_eq!(
        s.srem("s", &[]),
        Ok((CommandResult::Error("ERR wrong number of arguments for 'srem' command".to_string()), None))
    );
}
