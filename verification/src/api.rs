//! The commands of clients: from the parts of a command to the call of the
//! server, and from what the server gives back to the reply.

use crate::blob::{bytes_as_slice, bytes_content, contents};
use crate::resp::{bulk_strings, lossy_string, utf8_lossy, RespValue, RespView};
use crate::server::{missing_members, CommandResult, Server};
use crate::storage::{Storage, StorageError};
use crate::replica_model::ReplicaView;
use crate::types::{OpView, Operation, VersionVector};
use crate::version_vector::vv_get;
use crate::vv_text::{parse_vv, vv_text};
use bytes::Bytes;
use vstd::prelude::*;
use vstd::string::*;

verus! {

/// The text in upper case, as `str::to_uppercase` makes it.
pub uninterp spec fn uppercase(s: Seq<char>) -> Seq<char>;

/// `str::to_uppercase`.
#[verifier::external_body]
fn to_uppercase(s: &str) -> (r: String)
    ensures
        r@ == uppercase(s@),
{
    s.to_uppercase()
}

/// The version vector that a part of a command names: the part is `vv:` and
/// the text of a version vector. Nothing for another part.
pub open spec fn client_vv_of(part: Seq<u8>) -> Option<Map<crate::types::ActorId, u64>> {
    let text = utf8_lossy(part);
    if has_vv_prefix(text) {
        parse_vv(text.subrange(3, text.len() as int))
    } else {
        None
    }
}

pub open spec fn has_vv_prefix(text: Seq<char>) -> bool {
    text.len() >= 3 && text[0] == 'v' && text[1] == 'v' && text[2] == ':'
}

/// Whether the part starts with `vv:`.
pub fn is_vv_part(part: &Bytes) -> (r: bool)
    ensures
        r == has_vv_prefix(utf8_lossy(bytes_content(*part))),
{
    let text = lossy_string(bytes_as_slice(part));
    let s = text.as_str();
    s.unicode_len() >= 3 && s.get_char(0) == 'v' && s.get_char(1) == 'v' && s.get_char(2) == ':'
}

/// Reads the version vector that a part of a command names.
pub fn client_vv(part: &Bytes) -> (r: Option<VersionVector>)
    ensures
        match client_vv_of(bytes_content(*part)) {
            Some(m) => r is Some && r->0@ == m,
            None => r is None,
        },
{
    let text = lossy_string(bytes_as_slice(part));
    let s = text.as_str();
    let n: usize = s.unicode_len();
    if n >= 3 && s.get_char(0) == 'v' && s.get_char(1) == 'v' && s.get_char(2) == ':' {
        VersionVector::from_str(s.substring_char(3, n))
    } else {
        None
    }
}

/// The reply to a command, from what the server gave back.
pub open spec fn reply_view(result: Result<CommandResult, StorageError>) -> RespView {
    match result {
        Ok(CommandResult::Done { vv: Some(vv) }) => RespView::SimpleString("OK vv:"@ + vv_text(vv@)),
        Ok(CommandResult::Done { vv: None }) => RespView::SimpleString("OK"@),
        Ok(CommandResult::Integer(n)) => RespView::Integer(n),
        Ok(CommandResult::BoolArray(found)) => RespView::Array(
            Seq::new(
                found@.len(),
                |i: int|
                    RespView::Integer(
                        if found@[i] {
                            1
                        } else {
                            0
                        },
                    ),
            ),
        ),
        Ok(CommandResult::BytesArray(items)) => RespView::Array(
            Seq::new(items@.len(), |i: int| RespView::BulkString(bytes_content(items@[i]))),
        ),
        Ok(CommandResult::Error(msg)) => RespView::Error(msg@),
        Ok(CommandResult::NotReady(vv)) => RespView::Error("NOTREADY vv:"@ + vv_text(vv@)),
        Err(e) => RespView::Error("ERR database error: "@ + e.message@),
    }
}

/// Makes the reply to a command from what the server gave back.
pub fn reply(result: Result<CommandResult, StorageError>) -> (r: RespValue)
    ensures
        r.view() == reply_view(result),
{
    match result {
        Ok(CommandResult::Done { vv: Some(vv) }) => {
            let mut text = "OK vv:".to_owned();
            let vv_string = vv.to_string();
            text.append(vv_string.as_str());
            RespValue::SimpleString(text)
        },
        Ok(CommandResult::Done { vv: None }) => RespValue::SimpleString("OK".to_owned()),
        Ok(CommandResult::Integer(n)) => RespValue::Integer(n),
        Ok(CommandResult::BoolArray(found)) => {
            let mut out: Vec<RespValue> = Vec::new();
            let mut i: usize = 0;
            while i < found.len()
                invariant
                    i <= found@.len(),
                    out@.len() == i,
                    forall|k: int|
                        0 <= k < i ==> (#[trigger] out@[k]).view() == RespView::Integer(
                            if found@[k] {
                                1
                            } else {
                                0
                            },
                        ),
                decreases found@.len() - i,
            {
                out.push(
                    RespValue::Integer(
                        if found[i] {
                            1
                        } else {
                            0
                        },
                    ),
                );
                i = i + 1;
            }
            proof {
                assert(RespValue::Array(out).view()->Array_0 =~= reply_view(result)->Array_0);
            }
            RespValue::Array(out)
        },
        Ok(CommandResult::BytesArray(items)) => {
            let mut out: Vec<RespValue> = Vec::new();
            let mut i: usize = 0;
            while i < items.len()
                invariant
                    i <= items@.len(),
                    out@.len() == i,
                    forall|k: int|
                        0 <= k < i ==> (#[trigger] out@[k]).view() == RespView::BulkString(
                            bytes_content(items@[k]),
                        ),
                decreases items@.len() - i,
            {
                out.push(RespValue::BulkString(items[i].clone()));
                i = i + 1;
            }
            proof {
                assert(RespValue::Array(out).view()->Array_0 =~= reply_view(result)->Array_0);
            }
            RespValue::Array(out)
        },
        Ok(CommandResult::Error(msg)) => RespValue::Error(msg),
        Ok(CommandResult::NotReady(vv)) => {
            let mut text = "NOTREADY vv:".to_owned();
            let vv_string = vv.to_string();
            text.append(vv_string.as_str());
            RespValue::Error(text)
        },
        Err(e) => {
            let mut text = "ERR database error: ".to_owned();
            text.append(e.message.as_str());
            RespValue::Error(text)
        },
    }
}

/// The reply to a write, and the operation to send to the other replicas.
pub fn write_reply(result: Result<(CommandResult, Option<Operation>), StorageError>) -> (r: (
    RespValue,
    Option<Operation>,
))
    ensures
        match result {
            Ok((done, sent)) => r.0.view() == reply_view(Ok(done)) && r.1 == sent,
            Err(e) => r.0.view() == reply_view(Err(e)) && r.1 is None,
        },
{
    match result {
        Ok((done, sent)) => (reply(Ok(done)), sent),
        Err(e) => (reply(Err(e)), None),
    }
}

/// The reply to a command with too few parts.
pub fn too_few_parts(command: &str) -> (r: RespValue)
    ensures
        r.view() == RespView::Error(
            "ERR wrong number of arguments for '"@ + command@ + "' command"@,
        ),
{
    RespValue::Error(missing_members(command))
}

/// Copies the parts from `from` up to `to`.
fn parts_between(parts: &[Bytes], from: usize, to: usize) -> (r: Vec<Bytes>)
    requires
        from <= to <= parts.len(),
    ensures
        contents(r@) == contents(parts@).subrange(from as int, to as int),
{
    let mut out: Vec<Bytes> = Vec::new();
    let mut i: usize = from;
    while i < to
        invariant
            from <= i <= to <= parts@.len(),
            out@.len() == i - from,
            forall|k: int|
                0 <= k < out@.len() ==> bytes_content(#[trigger] out@[k]) == bytes_content(
                    parts@[from + k],
                ),
        decreases to - i,
    {
        out.push(parts[i].clone());
        i = i + 1;
    }
    assert(contents(out@) =~= contents(parts@).subrange(from as int, to as int));
    out
}

/// The reply to a command with too few parts.
pub open spec fn too_few(command: Seq<char>) -> RespView {
    RespView::Error("ERR wrong number of arguments for '"@ + command + "' command"@)
}

/// The reply to a read of a client that has seen more than the replica.
pub open spec fn not_ready(state: ReplicaView) -> RespView {
    RespView::Error("NOTREADY vv:"@ + vv_text(state.vv))
}

/// The reply is that the store failed.
pub open spec fn database_error(answer: RespView) -> bool {
    answer matches RespView::Error(text) && text.len() >= "ERR database error: "@.len()
        && text.subrange(0, "ERR database error: "@.len() as int) == "ERR database error: "@
}

pub proof fn lemma_database_error(message: Seq<char>)
    ensures
        database_error(RespView::Error("ERR database error: "@ + message)),
{
    let prefix = "ERR database error: "@;
    assert((prefix + message).subrange(0, prefix.len() as int) =~= prefix);
}

/// What `SCARD` may answer.
pub open spec fn scard_answer(state: ReplicaView, parts: Seq<Seq<u8>>, answer: RespView) -> bool {
    if parts.len() < 2 {
        answer == too_few("scard"@)
    } else if !serves(state.vv, vv_at(parts, 2)) {
        answer == not_ready(state)
    } else {
        database_error(answer) || answer == RespView::Integer(
            state.store.elements(utf8_lossy(parts[1])).len() as i64,
        )
    }
}

/// What `SMEMBERS` may answer.
pub open spec fn smembers_answer(state: ReplicaView, parts: Seq<Seq<u8>>, answer: RespView) -> bool {
    if parts.len() < 2 {
        answer == too_few("smembers"@)
    } else if !serves(state.vv, vv_at(parts, 2)) {
        answer == not_ready(state)
    } else {
        let rows = state.store.elements(utf8_lossy(parts[1]));
        database_error(answer) || answer == RespView::Array(
            Seq::new(rows.len(), |i: int| RespView::BulkString(rows[i].value)),
        )
    }
}

/// What `SISMEMBER` may answer.
pub open spec fn sismember_answer(state: ReplicaView, parts: Seq<Seq<u8>>, answer: RespView) -> bool {
    if parts.len() < 3 {
        answer == too_few("sismember"@)
    } else if !serves(state.vv, vv_at(parts, 3)) {
        answer == not_ready(state)
    } else {
        database_error(answer) || answer == RespView::Integer(
            if state.store.members(utf8_lossy(parts[1])).contains(parts[2]) {
                1
            } else {
                0
            },
        )
    }
}

/// What `SMISMEMBER` may answer.
pub open spec fn smismember_answer(state: ReplicaView, parts: Seq<Seq<u8>>, answer: RespView) -> bool {
    let end = mismember_end(parts);
    if parts.len() < 3 || end <= 2 {
        answer == too_few("smismember"@)
    } else {
        let set = utf8_lossy(parts[1]);
        let members = parts.subrange(2, end);
        let client = if end < parts.len() {
            client_vv_of(parts[end])
        } else {
            None
        };
        if !serves(state.vv, client) {
            answer == not_ready(state)
        } else {
            database_error(answer) || answer == RespView::Array(
                Seq::new(
                    members.len(),
                    |i: int|
                        RespView::Integer(
                            if state.store.members(set).contains(members[i]) {
                                1
                            } else {
                                0
                            },
                        ),
                ),
            )
        }
    }
}

/// What a write may answer and do. `is_add` tells `SADD` from `SREM`.
pub open spec fn write_outcome(
    is_add: bool,
    before: ReplicaView,
    parts: Seq<Seq<u8>>,
    after: ReplicaView,
    answer: RespView,
    sent: Option<OpView>,
) -> bool {
    if parts.len() < 3 {
        after == before && sent is None && answer == too_few(
            if is_add {
                "sadd"@
            } else {
                "srem"@
            },
        )
    } else if vv_get(before.vv, before.actor) == u64::MAX {
        after == before && sent is None && answer == RespView::Error("ERR actor counter exhausted"@)
    } else {
        let set = utf8_lossy(parts[1]);
        let members = parts.subrange(2, parts.len() as int);
        let done = if is_add {
            before.local_add(set, members)
        } else {
            before.local_remove(set, members)
        };
        let op = if is_add {
            before.local_add_op(set, members)
        } else {
            before.local_remove_op(set, members)
        };
        ||| after == before && sent is None && database_error(answer)
        ||| {
            &&& after == done
            &&& answer == RespView::SimpleString("OK vv:"@ + vv_text(after.vv))
            &&& sent == (if is_add || op.removed_dots.len() > 0 {
                Some(op)
            } else {
                None
            })
        }
    }
}

/// `SADD set member ...`
pub fn cmd_sadd<S: Storage>(server: &mut Server<S>, parts: &[Bytes]) -> (r: (
    RespValue,
    Option<Operation>,
))
    requires
        old(server).wf(),
    ensures
        final(server).wf(),
        write_outcome(
            true,
            old(server)@,
            contents(parts@),
            final(server)@,
            r.0.view(),
            match r.1 {
                Some(op) => Some(op@),
                None => None,
            },
        ),
{
    if parts.len() < 3 {
        return (too_few_parts("sadd"), None);
    }
    let key = lossy_string(bytes_as_slice(&parts[1]));
    let members = parts_between(parts, 2, parts.len());
    let result = server.sadd(key.as_str(), members.as_slice());
    let ghost seen = result;
    proof {
        assert(contents(parts@)[1] == bytes_content(parts@[1]));
        match seen {
            Err(e) => {
                lemma_database_error(e.message@);
            },
            _ => {},
        }
    }
    write_reply(result)
}

/// `SREM set member ...`
pub fn cmd_srem<S: Storage>(server: &mut Server<S>, parts: &[Bytes]) -> (r: (
    RespValue,
    Option<Operation>,
))
    requires
        old(server).wf(),
    ensures
        final(server).wf(),
        write_outcome(
            false,
            old(server)@,
            contents(parts@),
            final(server)@,
            r.0.view(),
            match r.1 {
                Some(op) => Some(op@),
                None => None,
            },
        ),
{
    if parts.len() < 3 {
        return (too_few_parts("srem"), None);
    }
    let key = lossy_string(bytes_as_slice(&parts[1]));
    let members = parts_between(parts, 2, parts.len());
    let result = server.srem(key.as_str(), members.as_slice());
    let ghost seen = result;
    proof {
        assert(contents(parts@)[1] == bytes_content(parts@[1]));
        match seen {
            Err(e) => {
                lemma_database_error(e.message@);
            },
            _ => {},
        }
    }
    write_reply(result)
}

/// The version vector that the part at `at` names, where there is such a
/// part.
pub open spec fn vv_at(parts: Seq<Seq<u8>>, at: int) -> Option<Map<crate::types::ActorId, u64>> {
    if at < parts.len() {
        client_vv_of(parts[at])
    } else {
        None
    }
}

fn optional_vv(parts: &[Bytes], at: usize) -> (r: Option<VersionVector>)
    ensures
        match vv_at(contents(parts@), at as int) {
            Some(m) => r is Some && r->0@ == m,
            None => r is None,
        },
{
    if at < parts.len() {
        client_vv(&parts[at])
    } else {
        None
    }
}

/// Whether a replica with the version vector `vv` serves a read of a
/// client that has seen `client`.
pub open spec fn serves(vv: Map<crate::types::ActorId, u64>, client: Option<
    Map<crate::types::ActorId, u64>,
>) -> bool {
    match client {
        Some(cv) => crate::version_vector::vv_descends(vv, cv),
        None => true,
    }
}

/// `SCARD set [vv:...]`
pub fn cmd_scard<S: Storage>(server: &Server<S>, parts: &[Bytes]) -> (r: RespValue)
    requires
        server.wf(),
    ensures
        scard_answer(server@, contents(parts@), r.view()),
{
    if parts.len() < 2 {
        return too_few_parts("scard");
    }
    let key = lossy_string(bytes_as_slice(&parts[1]));
    let vv = optional_vv(parts, 2);
    let result = server.scard(key.as_str(), vv.as_ref());
    let ghost seen = result;
    proof {
        assert(contents(parts@)[1] == bytes_content(parts@[1]));
        match seen {
            Err(e) => {
                lemma_database_error(e.message@);
            },
            _ => {},
        }
    }
    reply(result)
}

/// `SMEMBERS set [vv:...]`
pub fn cmd_smembers<S: Storage>(server: &Server<S>, parts: &[Bytes]) -> (r: RespValue)
    requires
        server.wf(),
    ensures
        smembers_answer(server@, contents(parts@), r.view()),
{
    if parts.len() < 2 {
        return too_few_parts("smembers");
    }
    let key = lossy_string(bytes_as_slice(&parts[1]));
    let vv = optional_vv(parts, 2);
    let result = server.smembers(key.as_str(), vv.as_ref());
    let ghost seen = result;
    proof {
        assert(contents(parts@)[1] == bytes_content(parts@[1]));
        match seen {
            Err(e) => {
                lemma_database_error(e.message@);
            },
            Ok(CommandResult::BytesArray(items)) => {
                let rows = server@.store.elements(key@);
                assert(contents(items@) == crate::store_model::values(rows));
                assert(contents(items@).len() == items@.len());
                assert(crate::store_model::values(rows).len() == rows.len());
                assert forall|i: int| 0 <= i < items@.len() implies bytes_content(items@[i])
                    == rows[i].value by {
                    assert(contents(items@)[i] == bytes_content(items@[i]));
                    assert(crate::store_model::values(rows)[i] == rows[i].value);
                }
                assert(reply_view(seen)->Array_0 =~= Seq::new(
                    rows.len(),
                    |i: int| RespView::BulkString(rows[i].value),
                ));
            },
            _ => {},
        }
    }
    reply(result)
}

/// `SISMEMBER set member [vv:...]`
pub fn cmd_sismember<S: Storage>(server: &Server<S>, parts: &[Bytes]) -> (r: RespValue)
    requires
        server.wf(),
    ensures
        sismember_answer(server@, contents(parts@), r.view()),
{
    if parts.len() < 3 {
        return too_few_parts("sismember");
    }
    let key = lossy_string(bytes_as_slice(&parts[1]));
    let vv = optional_vv(parts, 3);
    let result = server.sismember(key.as_str(), &parts[2], vv.as_ref());
    let ghost seen = result;
    proof {
        assert(contents(parts@)[1] == bytes_content(parts@[1]));
        assert(contents(parts@)[2] == bytes_content(parts@[2]));
        match seen {
            Err(e) => {
                lemma_database_error(e.message@);
            },
            _ => {},
        }
    }
    reply(result)
}

/// The members that `SMISMEMBER` names: the parts after the set, without a
/// last part that starts with `vv:`.
pub open spec fn mismember_end(parts: Seq<Seq<u8>>) -> int {
    if parts.len() > 0 && has_vv_prefix(utf8_lossy(parts.last())) {
        parts.len() - 1
    } else {
        parts.len() as int
    }
}

/// `SMISMEMBER set member ... [vv:...]`
pub fn cmd_smismember<S: Storage>(server: &Server<S>, parts: &[Bytes]) -> (r: RespValue)
    requires
        server.wf(),
    ensures
        smismember_answer(server@, contents(parts@), r.view()),
{
    if parts.len() < 3 {
        return too_few_parts("smismember");
    }
    let last: usize = parts.len() - 1;
    proof {
        assert(contents(parts@).last() == bytes_content(parts@[last as int]));
    }
    let has_vv = is_vv_part(&parts[last]);
    let end: usize = if has_vv {
        last
    } else {
        parts.len()
    };
    let vv = if has_vv {
        client_vv(&parts[last])
    } else {
        None
    };
    proof {
        assert(end as int == mismember_end(contents(parts@)));
    }
    let key = lossy_string(bytes_as_slice(&parts[1]));
    let members = parts_between(parts, 2, end);
    let result = server.smismember(key.as_str(), members.as_slice(), vv.as_ref());
    let ghost seen = result;
    proof {
        assert(contents(parts@)[1] == bytes_content(parts@[1]));
        if end < parts@.len() {
            assert(contents(parts@)[end as int] == bytes_content(parts@[end as int]));
        }
        assert(contents(members@).len() == members@.len());
        let client = if end < parts@.len() {
            client_vv_of(contents(parts@)[end as int])
        } else {
            None
        };
        if members@.len() == 0 {
            assert(end <= 2);
            assert(reply_view(seen) == too_few("smismember"@));
        } else if !serves(server@.vv, client) {
            assert(seen is Ok);
            assert(reply_view(seen) == not_ready(server@));
        }
        match seen {
            Err(e) => {
                lemma_database_error(e.message@);
            },
            Ok(CommandResult::BoolArray(found)) => {
                let rows = server@.store.elements(key@);
                let ms = contents(parts@).subrange(2, end as int);
                assert(contents(members@) == ms);
                assert(found@ == crate::storage::membership(rows, ms));
                assert(reply_view(seen)->Array_0 =~= Seq::new(
                    ms.len(),
                    |i: int|
                        RespView::Integer(
                            if server@.store.members(key@).contains(ms[i]) {
                                1
                            } else {
                                0
                            },
                        ),
                ));
            },
            _ => {},
        }
    }
    reply(result)
}

/// The names of the commands that read a set.
pub open spec fn read_command(name: Seq<char>) -> bool {
    name == "SCARD"@ || name == "SISMEMBER"@ || name == "SMISMEMBER"@ || name == "SMEMBERS"@
}

/// The names of the commands.
pub open spec fn known_command(name: Seq<char>) -> bool {
    name == "SADD"@ || name == "SREM"@ || read_command(name) || name == "PING"@
}

/// The reply to a command that can be answered without writing; `None` for
/// `SADD` and `SREM`.
///
/// A command is an array of bulk strings: the name, in any case, then its
/// parts. `PING` is answered with `PONG`.
pub fn process_read<S: Storage>(server: &Server<S>, value: &RespValue) -> (r: Option<RespValue>)
    requires
        server.wf(),
    ensures
        match bulk_strings(value.view()) {
            None => r matches Some(answer) && answer.view() == RespView::Error(
                "ERR invalid command format"@,
            ),
            Some(parts) => if parts.len() == 0 {
                r matches Some(answer) && answer.view() == RespView::Error(
                    "ERR invalid command format"@,
                )
            } else {
                let name = uppercase(utf8_lossy(parts[0]));
                &&& r is None == (name == "SADD"@ || name == "SREM"@)
                &&& name == "SCARD"@ ==> (r matches Some(answer) && scard_answer(
                    server@,
                    parts,
                    answer.view(),
                ))
                &&& name == "SMEMBERS"@ ==> (r matches Some(answer) && smembers_answer(
                    server@,
                    parts,
                    answer.view(),
                ))
                &&& name == "SISMEMBER"@ ==> (r matches Some(answer) && sismember_answer(
                    server@,
                    parts,
                    answer.view(),
                ))
                &&& name == "SMISMEMBER"@ ==> (r matches Some(answer) && smismember_answer(
                    server@,
                    parts,
                    answer.view(),
                ))
                &&& name == "PING"@ ==> (r matches Some(answer) && answer.view()
                    == RespView::SimpleString("PONG"@))
                &&& !known_command(name) ==> (r matches Some(answer) && answer.view()
                    == RespView::Error("ERR unknown command '"@ + name + "'"@))
            },
        },
{
    let parts = match value.as_bulk_string_array() {
        Some(parts) => parts,
        None => {
            return Some(RespValue::Error("ERR invalid command format".to_owned()));
        },
    };
    if parts.len() == 0 {
        return Some(RespValue::Error("ERR invalid command format".to_owned()));
    }
    let name = lossy_string(bytes_as_slice(&parts[0]));
    let cmd = to_uppercase(name.as_str());
    proof {
        assert(contents(parts@)[0] == bytes_content(parts@[0]));
        reveal_strlit("SADD");
        reveal_strlit("SREM");
        reveal_strlit("SCARD");
        reveal_strlit("SISMEMBER");
        reveal_strlit("SMISMEMBER");
        reveal_strlit("SMEMBERS");
        reveal_strlit("PING");
        assert("SADD"@[1] != "SREM"@[1]);
        assert("SADD"@[0] != "PING"@[0]);
        assert("SREM"@[0] != "PING"@[0]);
        assert("SCARD"@.len() == 5 && "SISMEMBER"@.len() == 9 && "SMISMEMBER"@.len() == 10
            && "SMEMBERS"@.len() == 8 && "PING"@.len() == 4 && "SADD"@.len() == 4 && "SREM"@.len()
            == 4);
    }
    if cmd == "SADD".to_owned() || cmd == "SREM".to_owned() {
        None
    } else if cmd == "SCARD".to_owned() {
        Some(cmd_scard(server, parts.as_slice()))
    } else if cmd == "SISMEMBER".to_owned() {
        Some(cmd_sismember(server, parts.as_slice()))
    } else if cmd == "SMISMEMBER".to_owned() {
        Some(cmd_smismember(server, parts.as_slice()))
    } else if cmd == "SMEMBERS".to_owned() {
        Some(cmd_smembers(server, parts.as_slice()))
    } else if cmd == "PING".to_owned() {
        Some(RespValue::SimpleString("PONG".to_owned()))
    } else {
        let mut text = "ERR unknown command '".to_owned();
        text.append(cmd.as_str());
        text.append("'");
        Some(RespValue::Error(text))
    }
}

/// The reply to one command, and the operation to send to the other
/// replicas where the command was a write that changed something.
pub fn process_command<S: Storage>(server: &mut Server<S>, value: &RespValue) -> (r: (
    RespValue,
    Option<Operation>,
))
    requires
        old(server).wf(),
    ensures
        final(server).wf(),
        match bulk_strings(value.view()) {
            None => r.0.view() == RespView::Error("ERR invalid command format"@) && r.1 is None
                && final(server)@ == old(server)@,
            Some(parts) => if parts.len() == 0 {
                r.0.view() == RespView::Error("ERR invalid command format"@) && r.1 is None
                    && final(server)@ == old(server)@
            } else {
                let name = uppercase(utf8_lossy(parts[0]));
                &&& name == "PING"@ ==> r.0.view() == RespView::SimpleString("PONG"@)
                &&& !known_command(name) ==> r.0.view() == RespView::Error(
                    "ERR unknown command '"@ + name + "'"@,
                )
                &&& name == "SCARD"@ ==> scard_answer(old(server)@, parts, r.0.view())
                &&& name == "SMEMBERS"@ ==> smembers_answer(old(server)@, parts, r.0.view())
                &&& name == "SISMEMBER"@ ==> sismember_answer(old(server)@, parts, r.0.view())
                &&& name == "SMISMEMBER"@ ==> smismember_answer(old(server)@, parts, r.0.view())
                &&& !(name == "SADD"@ || name == "SREM"@) ==> r.1 is None && final(server)@ == old(server)@
                &&& name == "SADD"@ || name == "SREM"@ ==> write_outcome(
                    name == "SADD"@,
                    old(server)@,
                    parts,
                    final(server)@,
                    r.0.view(),
                    match r.1 {
                        Some(op) => Some(op@),
                        None => None,
                    },
                )
            },
        },
{
    match process_read(server, value) {
        Some(answer) => (answer, None),
        None => {
            let parts = match value.as_bulk_string_array() {
                Some(parts) => parts,
                None => {
                    return (RespValue::Error("ERR invalid command format".to_owned()), None);
                },
            };
            if parts.len() == 0 {
                return (RespValue::Error("ERR invalid command format".to_owned()), None);
            }
            let name = lossy_string(bytes_as_slice(&parts[0]));
            let cmd = to_uppercase(name.as_str());
            proof {
                assert(contents(parts@)[0] == bytes_content(parts@[0]));
                if parts@.len() >= 2 {
                    assert(contents(parts@)[1] == bytes_content(parts@[1]));
                }
                reveal_strlit("SADD");
                reveal_strlit("SREM");
                assert("SADD"@[1] != "SREM"@[1]);
            }
            if cmd == "SADD".to_owned() {
                cmd_sadd(server, parts.as_slice())
            } else {
                cmd_srem(server, parts.as_slice())
            }
        },
    }
}

} // verus!
