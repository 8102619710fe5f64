//! The server: it owns the version vector, mints the dots of local writes,
//! hands the writes to the storage engine and makes the operations that are
//! sent to the other replicas.

use crate::blob::{bytes_content, clone_all, contents};
use crate::replica_model::ReplicaView;
use crate::storage::{membership, Storage, StorageError};
use crate::store_lemmas::lemma_operations_keep_wf;
use crate::store_model::{value_index, values};
use crate::types::{ActorId, Dot, OpType, Operation, VersionVector};
use crate::version_vector::{vv_descends, vv_get, vv_increment, vv_update};
use bytes::Bytes;
use vstd::prelude::*;

verus! {

/// What a command gives back.
#[derive(Debug, Clone, PartialEq)]
pub enum CommandResult {
    /// The write was done; the version vector after it.
    Done { vv: Option<VersionVector> },
    Integer(i64),
    /// Membership of several elements, place by place.
    BoolArray(Vec<bool>),
    /// The elements of a set.
    BytesArray(Vec<Bytes>),
    /// The command was not well formed.
    Error(String),
    /// The replica has not yet seen all that the client has seen; the
    /// replica's version vector.
    NotReady(VersionVector),
}

/// The server of one replica.
pub struct Server<S: Storage> {
    actor_id: ActorId,
    storage: S,
    version_vector: VersionVector,
}

/// The message for a command that names no member.
pub fn missing_members(command: &str) -> (r: String)
    ensures
        r@ == "ERR wrong number of arguments for '"@ + command@ + "' command"@,
{
    let mut msg = "ERR wrong number of arguments for '".to_owned();
    msg.append(command);
    msg.append("' command");
    msg
}

impl<S: Storage> View for Server<S> {
    type V = ReplicaView;

    closed spec fn view(&self) -> ReplicaView {
        ReplicaView {
            actor: self.actor_id,
            vv: self.version_vector@,
            store: self.storage.view(),
        }
    }
}

impl<S: Storage> Server<S> {
    /// The server's invariant: see `ReplicaView::wf`.
    pub open spec fn wf(&self) -> bool {
        self@.wf()
    }

    /// A server on a store, with the version vector that the store holds.
    pub fn new(actor_id: ActorId, storage: S) -> (r: Result<Self, StorageError>)
        requires
            storage.view().wf(),
        ensures
            r matches Ok(server) ==> server.wf() && server@ == (ReplicaView {
                actor: actor_id,
                vv: storage.view().vv,
                store: storage.view(),
            }),
    {
        let loaded = storage.load_vv();
        Self::conclude_new(actor_id, storage, loaded)
    }

    /// The server on a store, once the store has answered the reading of its
    /// version vector: a server with that vector, or the store's failure.
    pub fn conclude_new(
        actor_id: ActorId,
        storage: S,
        loaded: Result<VersionVector, StorageError>,
    ) -> (r: Result<Self, StorageError>)
        requires
            storage.view().wf(),
            loaded matches Ok(vv) ==> vv_descends(vv@, storage.view().vv),
        ensures
            match loaded {
                Ok(vv) => r matches Ok(server) && server.wf() && server@ == (ReplicaView {
                    actor: actor_id,
                    vv: vv@,
                    store: storage.view(),
                }),
                Err(e) => r matches Err(failure) && failure == e,
            },
    {
        match loaded {
            Ok(vv) => Ok(Server { actor_id, storage, version_vector: vv }),
            Err(e) => Err(e),
        }
    }

    pub fn actor_id(&self) -> (r: ActorId)
        ensures
            r == self@.actor,
    {
        self.actor_id
    }

    pub fn version_vector(&self) -> (r: &VersionVector)
        ensures
            r@ == self@.vv,
    {
        &self.version_vector
    }

    /// The store of the server.
    pub fn storage(&self) -> (r: &S)
        ensures
            r.view() == self@.store,
    {
        &self.storage
    }

    /// Whether the server can mint another dot.
    pub fn can_write(&self) -> (r: bool)
        ensures
            r == (vv_get(self@.vv, self@.actor) < u64::MAX),
    {
        self.version_vector.get(self.actor_id) < u64::MAX
    }

    /// What a local add gives back, once the store has answered.
    pub fn conclude_add(
        version_vector: &mut VersionVector,
        set_name: &str,
        members: &[Bytes],
        context: VersionVector,
        dot: Dot,
        stored: Result<Vec<Dot>, StorageError>,
    ) -> (r: Result<(CommandResult, Option<Operation>), StorageError>)
        ensures
            match stored {
                Ok(displaced) => {
                    &&& final(version_vector)@ == vv_update(
                        old(version_vector)@,
                        dot.actor_id,
                        dot.counter,
                    )
                    &&& r matches Ok((CommandResult::Done { vv: Some(v) }, Some(op)))
                    &&& v@ == final(version_vector)@
                    &&& op@ == (crate::types::OpView {
                        set_name: set_name@,
                        is_add: true,
                        elements: contents(members@),
                        dot,
                        removed_dots: displaced@,
                        context: context@,
                    })
                },
                Err(e) => final(version_vector)@ == old(version_vector)@ && r == Err::<
                    (CommandResult, Option<Operation>),
                    StorageError,
                >(e),
            },
    {
        match stored {
            Ok(displaced) => {
                version_vector.update(dot.actor_id, dot.counter);
                let operation = Operation {
                    set_name: set_name.to_owned(),
                    op_type: OpType::Add {
                        elements: clone_all(members),
                        dot,
                        removed_dots: displaced,
                    },
                    context,
                };
                Ok((CommandResult::Done { vv: Some(version_vector.clone()) }, Some(operation)))
            },
            Err(e) => Err(e),
        }
    }

    /// What a local remove gives back, once the store has answered. A remove
    /// that found nothing to remove sends no operation.
    pub fn conclude_remove(
        version_vector: &mut VersionVector,
        set_name: &str,
        members: &[Bytes],
        context: VersionVector,
        dot: Dot,
        stored: Result<Vec<Dot>, StorageError>,
    ) -> (r: Result<(CommandResult, Option<Operation>), StorageError>)
        ensures
            match stored {
                Ok(displaced) => {
                    &&& final(version_vector)@ == vv_update(
                        old(version_vector)@,
                        dot.actor_id,
                        dot.counter,
                    )
                    &&& r matches Ok((CommandResult::Done { vv: Some(v) }, sent))
                    &&& v@ == final(version_vector)@
                    &&& displaced@.len() == 0 ==> sent is None
                    &&& displaced@.len() > 0 ==> sent is Some && sent->0@ == (crate::types::OpView {
                        set_name: set_name@,
                        is_add: false,
                        elements: contents(members@),
                        dot,
                        removed_dots: displaced@,
                        context: context@,
                    })
                },
                Err(e) => final(version_vector)@ == old(version_vector)@ && r == Err::<
                    (CommandResult, Option<Operation>),
                    StorageError,
                >(e),
            },
    {
        match stored {
            Ok(displaced) => {
                version_vector.update(dot.actor_id, dot.counter);
                let operation = if displaced.len() > 0 {
                    Some(
                        Operation {
                            set_name: set_name.to_owned(),
                            op_type: OpType::Remove {
                                elements: clone_all(members),
                                dot,
                                removed_dots: displaced,
                            },
                            context,
                        },
                    )
                } else {
                    None
                };
                Ok((CommandResult::Done { vv: Some(version_vector.clone()) }, operation))
            },
            Err(e) => Err(e),
        }
    }

    /// What applying an operation from another replica gives back, once the
    /// store has answered: the version vector learns the operation's dot
    /// where the store took the operation, and is left alone where not.
    pub fn conclude_remote(
        version_vector: &mut VersionVector,
        dot: Dot,
        stored: Result<(), StorageError>,
    ) -> (r: Result<bool, StorageError>)
        ensures
            match stored {
                Ok(_) => final(version_vector)@ == vv_update(
                    old(version_vector)@,
                    dot.actor_id,
                    dot.counter,
                ) && r == Ok::<bool, StorageError>(true),
                Err(e) => final(version_vector)@ == old(version_vector)@ && r == Err::<
                    bool,
                    StorageError,
                >(e),
            },
    {
        match stored {
            Ok(_) => {
                version_vector.update(dot.actor_id, dot.counter);
                Ok(true)
            },
            Err(e) => Err(e),
        }
    }

    /// The answer to a count, once the store has answered: the count, or
    /// the store's failure; a count beyond the integers of the protocol is a
    /// failure too.
    pub fn conclude_count(counted: Result<u64, StorageError>) -> (r: Result<
        CommandResult,
        StorageError,
    >)
        ensures
            match counted {
                Ok(count) => if count <= i64::MAX {
                    r matches Ok(CommandResult::Integer(n)) && n == count
                } else {
                    r matches Err(e) && e.message@ == "count out of range"@
                },
                Err(e) => r == Err::<CommandResult, StorageError>(e),
            },
    {
        match counted {
            Ok(count) => {
                if count > i64::MAX as u64 {
                    Err(StorageError { message: "count out of range".to_owned() })
                } else {
                    Ok(CommandResult::Integer(count as i64))
                }
            },
            Err(e) => Err(e),
        }
    }

    /// Adds `members` to the set. Gives back the version vector after the
    /// add, and the operation to send to the other replicas. A server whose
    /// counter has no next value refuses the write.
    pub fn sadd(&mut self, set_name: &str, members: &[Bytes]) -> (r: Result<
        (CommandResult, Option<Operation>),
        StorageError,
    >)
        requires
            old(self).wf(),
        ensures
            final(self).wf(),
            members@.len() == 0 ==> final(self)@ == old(self)@ && (r matches Ok(
                (CommandResult::Error(msg), None),
            ) && msg@ == "ERR wrong number of arguments for '"@ + "sadd"@ + "' command"@),
            members@.len() > 0 && vv_get(old(self)@.vv, old(self)@.actor) == u64::MAX ==> final(self)@ == old(self)@ && (r matches Ok((CommandResult::Error(msg), None)) && msg@
                == "ERR actor counter exhausted"@),
            members@.len() > 0 && vv_get(old(self)@.vv, old(self)@.actor) < u64::MAX ==> match r {
                Ok((CommandResult::Done { vv: Some(v) }, Some(op))) => {
                    &&& final(self)@ == old(self)@.local_add(set_name@, contents(members@))
                    &&& op@ == old(self)@.local_add_op(set_name@, contents(members@))
                    &&& v@ == final(self)@.vv
                },
                Ok(_) => false,
                Err(_) => final(self)@ == old(self)@,
            },
    {
        if members.len() == 0 {
            return Ok((CommandResult::Error(missing_members("sadd")), None));
        }
        if !self.can_write() {
            return Ok((CommandResult::Error("ERR actor counter exhausted".to_owned()), None));
        }
        let context = self.version_vector.clone();
        let dot = Dot {
            actor_id: self.actor_id,
            counter: self.version_vector.get(self.actor_id) + 1,
        };
        let stored = self.storage.add_elements(set_name, members, dot);
        proof {
            lemma_operations_keep_wf(
                old(self)@.store,
                set_name@,
                contents(members@),
                Seq::empty(),
                dot,
            );
            assert(vv_update(old(self)@.vv, dot.actor_id, dot.counter) =~= vv_increment(
                old(self)@.vv,
                dot.actor_id,
            ));
        }
        Self::conclude_add(&mut self.version_vector, set_name, members, context, dot, stored)
    }

    /// Removes `members` from the set. Gives back the version vector after
    /// the remove, and the operation to send to the other replicas where
    /// anything was removed. A server whose counter has no next value refuses
    /// the write.
    pub fn srem(&mut self, set_name: &str, members: &[Bytes]) -> (r: Result<
        (CommandResult, Option<Operation>),
        StorageError,
    >)
        requires
            old(self).wf(),
        ensures
            final(self).wf(),
            members@.len() == 0 ==> final(self)@ == old(self)@ && (r matches Ok(
                (CommandResult::Error(msg), None),
            ) && msg@ == "ERR wrong number of arguments for '"@ + "srem"@ + "' command"@),
            members@.len() > 0 && vv_get(old(self)@.vv, old(self)@.actor) == u64::MAX ==> final(self)@ == old(self)@ && (r matches Ok((CommandResult::Error(msg), None)) && msg@
                == "ERR actor counter exhausted"@),
            members@.len() > 0 && vv_get(old(self)@.vv, old(self)@.actor) < u64::MAX ==> match r {
                Ok((CommandResult::Done { vv: Some(v) }, sent)) => {
                    &&& final(self)@ == old(self)@.local_remove(set_name@, contents(members@))
                    &&& v@ == final(self)@.vv
                    &&& match sent {
                        Some(op) => op@ == old(self)@.local_remove_op(
                            set_name@,
                            contents(members@),
                        ) && op@.removed_dots.len() > 0,
                        None => old(self)@.local_remove_op(
                            set_name@,
                            contents(members@),
                        ).removed_dots.len() == 0,
                    }
                },
                Ok(_) => false,
                Err(_) => final(self)@ == old(self)@,
            },
    {
        if members.len() == 0 {
            return Ok((CommandResult::Error(missing_members("srem")), None));
        }
        if !self.can_write() {
            return Ok((CommandResult::Error("ERR actor counter exhausted".to_owned()), None));
        }
        let context = self.version_vector.clone();
        let dot = Dot {
            actor_id: self.actor_id,
            counter: self.version_vector.get(self.actor_id) + 1,
        };
        let stored = self.storage.remove_elements(set_name, members, dot);
        proof {
            lemma_operations_keep_wf(
                old(self)@.store,
                set_name@,
                contents(members@),
                Seq::empty(),
                dot,
            );
            assert(vv_update(old(self)@.vv, dot.actor_id, dot.counter) =~= vv_increment(
                old(self)@.vv,
                dot.actor_id,
            ));
        }
        Self::conclude_remove(&mut self.version_vector, set_name, members, context, dot, stored)
    }

    /// Whether the server has seen all that a client has seen; a client that
    /// names no version vector is served at once.
    pub fn ready(&self, client_vv: Option<&VersionVector>) -> (r: bool)
        ensures
            r == (client_vv matches Some(cv) ==> vv_descends(self@.vv, cv@)),
    {
        match client_vv {
            Some(cv) => self.version_vector.descends(cv),
            None => true,
        }
    }

    /// The number of elements of the set.
    pub fn scard(&self, set_name: &str, client_vv: Option<&VersionVector>) -> (r: Result<
        CommandResult,
        StorageError,
    >)
        requires
            self.wf(),
        ensures
            match r {
                Ok(CommandResult::NotReady(v)) => v@ == self@.vv && !(client_vv matches Some(cv)
                    ==> vv_descends(self@.vv, cv@)),
                Ok(CommandResult::Integer(n)) => n == self@.store.elements(set_name@).len() && (
                client_vv matches Some(cv) ==> vv_descends(self@.vv, cv@)),
                Ok(_) => false,
                Err(_) => client_vv matches Some(cv) ==> vv_descends(self@.vv, cv@),
            },
    {
        if !self.ready(client_vv) {
            return Ok(CommandResult::NotReady(self.version_vector.clone()));
        }
        Self::conclude_count(self.storage.count_elements(set_name))
    }

    /// The elements of the set, in the order of their rows.
    pub fn smembers(&self, set_name: &str, client_vv: Option<&VersionVector>) -> (r: Result<
        CommandResult,
        StorageError,
    >)
        requires
            self.wf(),
        ensures
            match r {
                Ok(CommandResult::NotReady(v)) => v@ == self@.vv && !(client_vv matches Some(cv)
                    ==> vv_descends(self@.vv, cv@)),
                Ok(CommandResult::BytesArray(items)) => contents(items@) == values(
                    self@.store.elements(set_name@),
                ) && (client_vv matches Some(cv) ==> vv_descends(self@.vv, cv@)),
                Ok(_) => false,
                Err(_) => client_vv matches Some(cv) ==> vv_descends(self@.vv, cv@),
            },
    {
        if !self.ready(client_vv) {
            return Ok(CommandResult::NotReady(self.version_vector.clone()));
        }
        match self.storage.get_elements(set_name) {
            Ok(items) => Ok(CommandResult::BytesArray(items)),
            Err(e) => Err(e),
        }
    }

    /// Whether `member` is in the set: one or zero.
    pub fn sismember(&self, set_name: &str, member: &Bytes, client_vv: Option<&VersionVector>) -> (r:
        Result<CommandResult, StorageError>)
        requires
            self.wf(),
        ensures
            match r {
                Ok(CommandResult::NotReady(v)) => v@ == self@.vv && !(client_vv matches Some(cv)
                    ==> vv_descends(self@.vv, cv@)),
                Ok(CommandResult::Integer(n)) => n == (if value_index(
                    self@.store.elements(set_name@),
                    bytes_content(*member),
                ) >= 0 {
                    1i64
                } else {
                    0i64
                }) && (client_vv matches Some(cv) ==> vv_descends(self@.vv, cv@)),
                Ok(_) => false,
                Err(_) => client_vv matches Some(cv) ==> vv_descends(self@.vv, cv@),
            },
    {
        if !self.ready(client_vv) {
            return Ok(CommandResult::NotReady(self.version_vector.clone()));
        }
        match self.storage.is_member(set_name, member) {
            Ok(found) => Ok(
                CommandResult::Integer(
                    if found {
                        1
                    } else {
                        0
                    },
                ),
            ),
            Err(e) => Err(e),
        }
    }

    /// Whether each of `members` is in the set, place by place.
    pub fn smismember(
        &self,
        set_name: &str,
        members: &[Bytes],
        client_vv: Option<&VersionVector>,
    ) -> (r: Result<CommandResult, StorageError>)
        requires
            self.wf(),
        ensures
            members@.len() == 0 ==> (r matches Ok(CommandResult::Error(msg)) && msg@
                == "ERR wrong number of arguments for '"@ + "smismember"@ + "' command"@),
            members@.len() > 0 ==> match r {
                Ok(CommandResult::NotReady(v)) => v@ == self@.vv && !(client_vv matches Some(cv)
                    ==> vv_descends(self@.vv, cv@)),
                Ok(CommandResult::BoolArray(found)) => found@ == membership(
                    self@.store.elements(set_name@),
                    contents(members@),
                ) && (client_vv matches Some(cv) ==> vv_descends(self@.vv, cv@)),
                Ok(_) => false,
                Err(_) => client_vv matches Some(cv) ==> vv_descends(self@.vv, cv@),
            },
    {
        if members.len() == 0 {
            return Ok(CommandResult::Error(missing_members("smismember")));
        }
        if !self.ready(client_vv) {
            return Ok(CommandResult::NotReady(self.version_vector.clone()));
        }
        match self.storage.are_members(set_name, members) {
            Ok(found) => Ok(CommandResult::BoolArray(found)),
            Err(e) => Err(e),
        }
    }

    /// What the server does with an operation from another replica: nothing
    /// and `false` where it has not yet seen all that the operation's maker
    /// had seen; nothing and `true` where it has seen the operation's dot;
    /// else it applies the operation.
    pub fn apply_remote_operation(&mut self, operation: Operation) -> (r: Result<bool, StorageError>)
        requires
            old(self).wf(),
        ensures
            final(self).wf(),
            match r {
                Ok(applied) => applied == old(self)@.ready_for(operation@) && final(self)@ == old(
                    self,
                )@.apply_remote(operation@),
                Err(_) => final(self)@ == old(self)@ && old(self)@.ready_for(operation@) && old(
                    self,
                )@.is_new(operation@),
            },
    {
        if !self.version_vector.descends(&operation.context) {
            return Ok(false);
        }
        let dot = operation.op_type.dot();
        if dot.counter <= self.version_vector.get(dot.actor_id) {
            return Ok(true);
        }
        proof {
            lemma_operations_keep_wf(
                old(self)@.store,
                operation@.set_name,
                operation@.elements,
                operation@.removed_dots,
                dot,
            );
        }
        let stored = match &operation.op_type {
            OpType::Add { elements, removed_dots, .. } => self.storage.replicate_add(
                operation.set_name.as_str(),
                elements.as_slice(),
                removed_dots.as_slice(),
                dot,
            ),
            OpType::Remove { elements, removed_dots, .. } => self.storage.replicate_remove(
                operation.set_name.as_str(),
                elements.as_slice(),
                removed_dots.as_slice(),
                dot,
            ),
        };
        Self::conclude_remote(&mut self.version_vector, dot, stored)
    }
}

} // verus!
