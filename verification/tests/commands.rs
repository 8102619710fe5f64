use bigsets::mem_storage::MemStorage;
use bigsets::server::{CommandResult, Server};
use bigsets::types::{ActorId, VersionVector};
use bytes::Bytes;

fn new_server() -> (Server<MemStorage>, ActorId) {
    let actor = ActorId::from_node_id(1);
    (Server::new(actor, MemStorage::new()).unwrap(), actor)
}

#[test]
fn test_sadd_command() {
    let (mut server, actor) = new_server();

    let members = vec![Bytes::from("apple"), Bytes::from("banana")];
    let (result, _) = server.sadd("myset", &members).unwrap();

    match result {
        CommandResult::Done { vv: Some(returned_vv) } => {
            assert_eq!(returned_vv.get(actor), 1);
        }
        _ => panic!("Expected Ok result"),
    }

    let card_result = server.scard("myset", None).unwrap();
    assert_eq!(card_result, CommandResult::Integer(2));
}

#[test]
fn test_srem_command() {
    let (mut server, actor) = new_server();

    let members = vec![Bytes::from("apple"), Bytes::from("banana")];
    server.sadd("myset", &members).unwrap();

    let to_remove = vec![Bytes::from("apple")];
    let (result, _) = server.srem("myset", &to_remove).unwrap();

    match result {
        CommandResult::Done { vv: Some(returned_vv) } => {
            assert_eq!(returned_vv.get(actor), 2);
        }
        _ => panic!("Expected Ok result"),
    }

    let card_result = server.scard("myset", None).unwrap();
    assert_eq!(card_result, CommandResult::Integer(1));
}

#[test]
fn test_scard_with_client_vv() {
    let (mut server, actor) = new_server();

    let members = vec![Bytes::from("apple")];
    server.sadd("myset", &members).unwrap();

    let mut client_vv = VersionVector::new();
    let result = server.scard("myset", Some(&client_vv)).unwrap();
    assert_eq!(result, CommandResult::Integer(1));

    client_vv.update(actor, 5);
    let result = server.scard("myset", Some(&client_vv)).unwrap();
    match result {
        CommandResult::NotReady(local) => {
            assert_eq!(local.get(actor), 1);
        }
        _ => panic!("Expected NotReady"),
    }
}

#[test]
fn test_sismember_command() {
    let (mut server, _) = new_server();

    let members = vec![Bytes::from("apple")];
    server.sadd("myset", &members).unwrap();

    let result = server.sismember("myset", &Bytes::from("apple"), None).unwrap();
    assert_eq!(result, CommandResult::Integer(1));

    let result = server.sismember("myset", &Bytes::from("banana"), None).unwrap();
    assert_eq!(result, CommandResult::Integer(0));
}

#[test]
fn test_smismember_command() {
    let (mut server, _) = new_server();

    let members = vec![Bytes::from("apple"), Bytes::from("banana")];
    server.sadd("myset", &members).unwrap();

    let check = vec![Bytes::from("apple"), Bytes::from("grape"), Bytes::from("banana")];
    let result = server.smismember("myset", &check, None).unwrap();

    match result {
        CommandResult::BoolArray(results) => {
            assert_eq!(results, vec![true, false, true]);
        }
        _ => panic!("Expected BoolArray"),
    }
}

#[test]
fn test_sadd_empty_members() {
    let (mut server, _) = new_server();

    let (result, op) = server.sadd("myset", &[]).unwrap();
    assert!(op.is_none());

    match result {
        CommandResult::Error(msg) => {
            assert!(msg.contains("wrong number of arguments"));
            assert_eq!(msg, "ERR wrong number of arguments for 'sadd' command");
        }
        _ => panic!("Expected Error result"),
    }
    assert!(server.version_vector().is_empty());
}

#[test]
fn empty_members_are_refused_by_srem_and_smismember() {
    let (mut server, _) = new_server();
    let (result, op) = server.srem("s", &[]).unwrap();
    assert!(op.is_none());
    assert_eq!(
        result,
        CommandResult::Error("ERR wrong number of arguments for 'srem' command".to_string())
    );
    assert_eq!(
        server.smismember("s", &[], None).unwrap(),
        CommandResult::Error("ERR wrong number of arguments for 'smismember' command".to_string())
    );
}

#[test]
fn reads_of_a_client_ahead_are_not_ready() {
    let (mut server, actor) = new_server();
    server.sadd("s", &[Bytes::from("a")]).unwrap();
    let mut ahead = VersionVector::new();
    ahead.update(ActorId::from_node_id(2), 1);
    let local = server.version_vector().clone();
    assert_eq!(server.smembers("s", Some(&ahead)).unwrap(), CommandResult::NotReady(local.clone()));
    assert_eq!(
        server.sismember("s", &Bytes::from("a"), Some(&ahead)).unwrap(),
        CommandResult::NotReady(local.clone())
    );
    assert_eq!(
        server.smismember("s", &[Bytes::from("a")], Some(&ahead)).unwrap(),
        CommandResult::NotReady(local)
    );
    let mut behind = VersionVector::new();
    behind.update(actor, 1);
    assert_eq!(
        server.smembers("s", Some(&behind)).unwrap(),
        CommandResult::BytesArray(vec![Bytes::from("a")])
    );
}
