use bigsets::api::{client_vv, is_vv_part, process_command, reply};
use bigsets::mem_storage::MemStorage;
use bigsets::resp::RespValue;
use bigsets::server::{CommandResult, Server};
use bigsets::storage::StorageError;
use bigsets::types::{ActorId, VersionVector};
use bytes::Bytes;

fn command(parts: &[&str]) -> RespValue {
    RespValue::Array(parts.iter().map(|p| RespValue::BulkString(Bytes::from(p.to_string()))).collect())
}

fn server() -> Server<MemStorage> {
    Server::new(ActorId::new(1, 0), MemStorage::new()).unwrap()
}

fn bulk(s: &str) -> RespValue {
    RespValue::BulkString(Bytes::from(s.to_string()))
}

fn text(s: &str) -> RespValue {
    RespValue::SimpleString(s.to_string())
}

fn error(s: &str) -> RespValue {
    RespValue::Error(s.to_string())
}

#[test]
fn writes_answer_with_the_version_vector() {
    let mut server = server();
    let (answer, op) = process_command(&mut server, &command(&["sadd", "s", "a", "b", "c"]));
    assert_eq!(answer, text("OK vv:v0:1:0:1"));
    assert_eq!(op.unwrap().set_name, "s");
    let (answer, op) = process_command(&mut server, &command(&["SMEMBERS", "s"]));
    assert_eq!(answer, RespValue::Array(vec![bulk("a"), bulk("b"), bulk("c")]));
    assert!(op.is_none());
    let (answer, op) = process_command(&mut server, &command(&["SrEm", "s", "a"]));
    assert_eq!(answer, text("OK vv:v0:1:0:2"));
    assert!(op.is_some());
    // a remove that removes nothing sends nothing
    let (answer, op) = process_command(&mut server, &command(&["SREM", "s", "a"]));
    assert_eq!(answer, text("OK vv:v0:1:0:3"));
    assert!(op.is_none());
    assert_eq!(process_command(&mut server, &command(&["SCARD", "s"])).0, RespValue::Integer(2));
}

#[test]
fn reads_take_an_optional_client_version_vector() {
    let mut server = server();
    process_command(&mut server, &command(&["SADD", "s", "a"]));
    let seen = "vv:v0:1:0:1";
    let ahead = "vv:v0:1:0:2";
    assert_eq!(process_command(&mut server, &command(&["SCARD", "s", seen])).0, RespValue::Integer(1));
    assert_eq!(
        process_command(&mut server, &command(&["SCARD", "s", ahead])).0,
        error("NOTREADY vv:v0:1:0:1")
    );
    // a version vector that cannot be read counts as none
    assert_eq!(process_command(&mut server, &command(&["SCARD", "s", "vv:x"])).0, RespValue::Integer(1));
    assert_eq!(process_command(&mut server, &command(&["SCARD", "s", "v0:9:0:9"])).0, RespValue::Integer(1));
    assert_eq!(
        process_command(&mut server, &command(&["SISMEMBER", "s", "a", seen])).0,
        RespValue::Integer(1)
    );
    assert_eq!(process_command(&mut server, &command(&["SISMEMBER", "s", "b"])).0, RespValue::Integer(0));
    assert_eq!(
        process_command(&mut server, &command(&["SISMEMBER", "s", "a", ahead])).0,
        error("NOTREADY vv:v0:1:0:1")
    );
    assert_eq!(
        process_command(&mut server, &command(&["SMEMBERS", "s", ahead])).0,
        error("NOTREADY vv:v0:1:0:1")
    );
    assert_eq!(
        process_command(&mut server, &command(&["SMISMEMBER", "s", "a", "b", seen])).0,
        RespValue::Array(vec![RespValue::Integer(1), RespValue::Integer(0)])
    );
    assert_eq!(
        process_command(&mut server, &command(&["SMISMEMBER", "s", "a", "vv:x"])).0,
        RespValue::Array(vec![RespValue::Integer(1)])
    );
    assert_eq!(
        process_command(&mut server, &command(&["SMISMEMBER", "s", "a", ahead])).0,
        error("NOTREADY vv:v0:1:0:1")
    );
    assert_eq!(
        process_command(&mut server, &command(&["SMISMEMBER", "s", seen])).0,
        error("ERR wrong number of arguments for 'smismember' command")
    );
}

#[test]
fn malformed_commands_are_answered_with_errors() {
    let mut server = server();
    assert_eq!(process_command(&mut server, &RespValue::Integer(1)).0, error("ERR invalid command format"));
    assert_eq!(process_command(&mut server, &command(&[])).0, error("ERR invalid command format"));
    assert_eq!(
        process_command(&mut server, &RespValue::Array(vec![RespValue::Integer(1)])).0,
        error("ERR invalid command format")
    );
    assert_eq!(process_command(&mut server, &command(&["ping"])).0, text("PONG"));
    assert_eq!(process_command(&mut server, &command(&["nope", "x"])).0, error("ERR unknown command 'NOPE'"));
    for (name, parts) in [
        ("sadd", vec!["SADD", "s"]),
        ("srem", vec!["SREM", "s"]),
        ("scard", vec!["SCARD"]),
        ("smembers", vec!["SMEMBERS"]),
        ("sismember", vec!["SISMEMBER", "s"]),
        ("smismember", vec!["SMISMEMBER", "s"]),
    ] {
        let (answer, op) = process_command(&mut server, &command(&parts));
        assert_eq!(answer, error(&format!("ERR wrong number of arguments for '{}' command", name)));
        assert!(op.is_none());
    }
    assert!(server.version_vector().is_empty());
}

#[test]
fn replies_are_made_of_results() {
    let mut vv = VersionVector::new();
    vv.update(ActorId::new(3, 1), 4);
    assert_eq!(reply(Ok(CommandResult::Done { vv: Some(vv.clone()) })), text("OK vv:v0:3:1:4"));
    assert_eq!(reply(Ok(CommandResult::Done { vv: None })), text("OK"));
    assert_eq!(reply(Ok(CommandResult::NotReady(vv))), error("NOTREADY vv:v0:3:1:4"));
    assert_eq!(reply(Ok(CommandResult::Error("ERR x".to_string()))), error("ERR x"));
    assert_eq!(reply(Ok(CommandResult::Integer(-3))), RespValue::Integer(-3));
    assert_eq!(
        reply(Ok(CommandResult::BoolArray(vec![true, false]))),
        RespValue::Array(vec![RespValue::Integer(1), RespValue::Integer(0)])
    );
    assert_eq!(
        reply(Err(StorageError { message: "disk full".to_string() })),
        error("ERR database error: disk full")
    );
}

#[test]
fn client_version_vectors_need_their_prefix() {
    assert!(is_vv_part(&Bytes::from("vv:")));
    assert!(!is_vv_part(&Bytes::from("vv")));
    assert!(!is_vv_part(&Bytes::from("Vv:v0:1:0:1")));
    assert_eq!(client_vv(&Bytes::from("vv:")), Some(VersionVector::new()));
    assert_eq!(client_vv(&Bytes::from("vv:v0:1:0:1")).unwrap().get(ActorId::new(1, 0)), 1);
    assert_eq!(client_vv(&Bytes::from("v0:1:0:1")), None);
    assert_eq!(client_vv(&Bytes::from("vv:v0:1:0")), None);
}
