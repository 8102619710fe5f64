//! Replication between replicas: the frames on the wire, what a replica
//! does with an operation that it receives, and the peers of a node.

use crate::buffers::{picks, PendingBuffer, UnackedBuffer};
use crate::config::{lemma_replica_order, Config, ReplicaInfo, ReplicaInfoView};
use crate::replica_model::ReplicaView;
use crate::server::Server;
use crate::storage::{Storage, StorageError};
use crate::convergence::{lemma_run_push, run};
use crate::types::{ActorId, OpView, Operation};
use crate::version_vector::{vv_descends, vv_get};
use vstd::prelude::*;

verus! {

/// The most bytes that one message holds.
pub const MAX_FRAME_LEN: usize = 16777216;

/// Why a length is not the length of a message.
#[derive(Debug, Clone, Copy, PartialEq, Eq, Structural)]
pub enum FrameError {
    /// The message would be empty.
    Empty,
    /// The message would hold more than `MAX_FRAME_LEN` bytes.
    TooLong,
}

/// The number that four bytes stand for, the high byte first.
pub open spec fn be_u32(b: Seq<u8>) -> int {
    b[0] as int * 16777216 + b[1] as int * 65536 + b[2] as int * 256 + b[3] as int
}

/// The four bytes of a number, the high byte first.
pub open spec fn be_bytes(n: int) -> Seq<u8> {
    seq![
        (n / 16777216 % 256) as u8,
        (n / 65536 % 256) as u8,
        (n / 256 % 256) as u8,
        (n % 256) as u8,
    ]
}

/// Reads the length of the message that follows its four bytes.
pub fn frame_length(header: &[u8; 4]) -> (r: Result<usize, FrameError>)
    ensures
        be_u32(header@) == 0 ==> r == Err::<usize, FrameError>(FrameError::Empty),
        be_u32(header@) > MAX_FRAME_LEN ==> r == Err::<usize, FrameError>(FrameError::TooLong),
        0 < be_u32(header@) <= MAX_FRAME_LEN ==> r == Ok::<usize, FrameError>(
            be_u32(header@) as usize,
        ),
{
    let n: u32 = (header[0] as u32) * 16777216 + (header[1] as u32) * 65536 + (header[2] as u32)
        * 256 + (header[3] as u32);
    if n == 0 {
        Err(FrameError::Empty)
    } else if n > 16777216 {
        Err(FrameError::TooLong)
    } else {
        Ok(n as usize)
    }
}

/// The four bytes that announce a message of `len` bytes.
pub fn frame_header(len: usize) -> (r: Result<[u8; 4], FrameError>)
    ensures
        len == 0 ==> r == Err::<[u8; 4], FrameError>(FrameError::Empty),
        len > MAX_FRAME_LEN ==> r == Err::<[u8; 4], FrameError>(FrameError::TooLong),
        0 < len <= MAX_FRAME_LEN ==> r is Ok && r->Ok_0@ == be_bytes(len as int) && be_u32(
            r->Ok_0@,
        ) == len,
{
    if len == 0 {
        Err(FrameError::Empty)
    } else if len > 16777216 {
        Err(FrameError::TooLong)
    } else {
        let header: [u8; 4] = [
            (len / 16777216 % 256) as u8,
            (len / 65536 % 256) as u8,
            (len / 256 % 256) as u8,
            (len % 256) as u8,
        ];
        assert(header@ =~= be_bytes(len as int));
        Ok(header)
    }
}

/// A message as it goes on the wire: its length in four bytes, then its
/// bytes.
pub fn frame(payload: &[u8]) -> (r: Result<Vec<u8>, FrameError>)
    ensures
        payload@.len() == 0 ==> r == Err::<Vec<u8>, FrameError>(FrameError::Empty),
        payload@.len() > MAX_FRAME_LEN ==> r == Err::<Vec<u8>, FrameError>(FrameError::TooLong),
        0 < payload@.len() <= MAX_FRAME_LEN ==> r is Ok && r->Ok_0@ == be_bytes(
            payload@.len() as int,
        ) + payload@,
{
    match frame_header(payload.len()) {
        Err(e) => Err(e),
        Ok(header) => {
            let mut out: Vec<u8> = Vec::new();
            out.push(header[0]);
            out.push(header[1]);
            out.push(header[2]);
            out.push(header[3]);
            let mut i: usize = 0;
            assert(out@ =~= be_bytes(payload@.len() as int));
            while i < payload.len()
                invariant
                    i <= payload@.len(),
                    out@ == be_bytes(payload@.len() as int) + payload@.subrange(0, i as int),
                decreases payload@.len() - i,
            {
                out.push(payload[i]);
                assert(out@ =~= be_bytes(payload@.len() as int) + payload@.subrange(0, i + 1));
                i = i + 1;
            }
            assert(payload@.subrange(0, i as int) =~= payload@);
            Ok(out)
        },
    }
}

/// One pass over waiting operations, in their order: each operation that the
/// replica is ready for is applied and leaves; the others are kept. `kept`
/// are the operations that the pass has kept so far, `todo` those still to
/// look at.
pub open spec fn pass_from(state: ReplicaView, kept: Seq<Operation>, todo: Seq<Operation>) -> (
    ReplicaView,
    Seq<Operation>,
)
    decreases todo.len(),
{
    if todo.len() == 0 {
        (state, kept)
    } else if state.ready_for(todo[0]@) {
        pass_from(state.apply_remote(todo[0]@), kept, todo.drop_first())
    } else {
        pass_from(state, kept.push(todo[0]), todo.drop_first())
    }
}

/// One pass over all waiting operations.
pub open spec fn pass(state: ReplicaView, ops: Seq<Operation>) -> (ReplicaView, Seq<Operation>) {
    pass_from(state, Seq::empty(), ops)
}

/// Passes over the waiting operations until a pass applies none.
pub open spec fn drain(state: ReplicaView, ops: Seq<Operation>) -> (ReplicaView, Seq<Operation>)
    decreases ops.len(),
{
    let (next, rest) = pass(state, ops);
    if rest.len() < ops.len() {
        drain(next, rest)
    } else {
        (next, rest)
    }
}

/// What draining the waiting operations came to.
#[derive(Debug, Clone, Copy, PartialEq, Eq, Structural)]
pub struct DrainReport {
    /// The operations that left the buffer.
    pub applied: usize,
    /// The times that the store failed.
    pub failures: usize,
}

/// The replica after the operations have been handed to it one after the
/// other.
pub open spec fn handed(state: ReplicaView, ops: Seq<Operation>) -> ReplicaView
    decreases ops.len(),
{
    if ops.len() == 0 {
        state
    } else {
        handed(state, ops.drop_last()).apply_remote(ops.last()@)
    }
}

/// The replica is ready for each of the operations when its turn comes.
pub open spec fn all_ready(state: ReplicaView, ops: Seq<Operation>) -> bool
    decreases ops.len(),
{
    ops.len() == 0 || (all_ready(state, ops.drop_last()) && handed(
        state,
        ops.drop_last(),
    ).ready_for(ops.last()@))
}

/// No waiting operation is due: none is one that the replica is ready for
/// and has not seen.
pub open spec fn none_due(state: ReplicaView, waiting: Seq<Operation>) -> bool {
    forall|i: int|
        0 <= i < waiting.len() ==> !(state.ready_for((#[trigger] waiting[i])@) && state.is_new(
            waiting[i]@,
        ))
}

/// `left` is what stays of `waiting`, in its order, from the places
/// `places`; and the replica `after` has seen the dot of every operation
/// that did not stay.
pub open spec fn stayed(
    waiting: Seq<Operation>,
    left: Seq<Operation>,
    places: Seq<int>,
    after: ReplicaView,
) -> bool {
    &&& picks(waiting, left, places)
    &&& forall|j: int|
        0 <= j < waiting.len() && !places.contains(j) ==> !after.is_new((#[trigger] waiting[j])@)
}

/// The operations `done` are those of `waiting` that are not in `left`, and
/// `after` is the replica `before` with `done` applied one after the other,
/// each when the replica was ready for it.
pub open spec fn applied_in_turn(
    before: ReplicaView,
    waiting: Seq<Operation>,
    after: ReplicaView,
    left: Seq<Operation>,
    done: Seq<Operation>,
) -> bool {
    &&& after == handed(before, done)
    &&& all_ready(before, done)
    &&& waiting.to_multiset() == left.to_multiset().add(done.to_multiset())
}

/// What holds of the server and the buffer after waiting operations were
/// tried, whatever the store answered. The operations that left the buffer
/// were applied, each when the server was ready for it, and nothing else
/// was; those that stay keep their order; no counter went back; and where
/// no operation left, or none was due, the server is as it was.
pub open spec fn worked(
    before: ReplicaView,
    waiting: Seq<Operation>,
    after: ReplicaView,
    left: Seq<Operation>,
) -> bool {
    &&& after.actor == before.actor
    &&& vv_descends(after.vv, before.vv)
    &&& exists|places: Seq<int>| stayed(waiting, left, places, after)
    &&& exists|done: Seq<Operation>|
        done.len() == waiting.len() - left.len() && applied_in_turn(
            before,
            waiting,
            after,
            left,
            done,
        )
    &&& forall|i: int|
        0 <= i < waiting.len() && !left.contains(waiting[i]) ==> !after.is_new(
            (#[trigger] waiting[i])@,
        )
    &&& left.len() == waiting.len() ==> after == before && left == waiting
    &&& none_due(before, waiting) ==> after == before
}

/// A replica that has seen a dot has seen it after it has learned more.
pub proof fn lemma_seen_stays(before: ReplicaView, after: ReplicaView, op: crate::types::OpView)
    requires
        vv_descends(after.vv, before.vv),
        !before.is_new(op),
    ensures
        !after.is_new(op),
{
    if before.vv.dom().contains(op.dot.actor_id) {
        assert(vv_get(after.vv, op.dot.actor_id) >= before.vv[op.dot.actor_id]);
    }
}

/// Handing over two runs of operations is handing over the first and then
/// the second.
pub proof fn lemma_handed_concat(state: ReplicaView, first: Seq<Operation>, second: Seq<Operation>)
    ensures
        handed(state, first + second) == handed(handed(state, first), second),
        all_ready(state, first + second) == (all_ready(state, first) && all_ready(
            handed(state, first),
            second,
        )),
    decreases second.len(),
{
    if second.len() == 0 {
        assert(first + second =~= first);
    } else {
        lemma_handed_concat(state, first, second.drop_last());
        assert((first + second).drop_last() =~= first + second.drop_last());
        assert((first + second).last() == second.last());
    }
}

/// The operations as plain values.
pub open spec fn op_views(ops: Seq<Operation>) -> Seq<OpView> {
    ops.map_values(|o: Operation| o@)
}

/// What the operations that were applied in turn came to is what the same
/// operations come to as plain values.
pub proof fn lemma_handed_is_run(state: ReplicaView, ops: Seq<Operation>)
    ensures
        handed(state, ops) == run(state, op_views(ops)),
    decreases ops.len(),
{
    if ops.len() == 0 {
        assert(op_views(ops) =~= Seq::<OpView>::empty());
    } else {
        lemma_handed_is_run(state, ops.drop_last());
        assert(op_views(ops) =~= op_views(ops.drop_last()).push(ops.last()@));
        lemma_run_push(state, op_views(ops.drop_last()), ops.last()@);
    }
}

/// Hands the operations to the server one after the other, as
/// `apply_remote_operation` does with each, and stops where the store
/// fails.
pub fn apply_in_turn<S: Storage>(server: &mut Server<S>, ops: &[Operation]) -> (r: Result<
    (),
    StorageError,
>)
    requires
        old(server).wf(),
    ensures
        final(server).wf(),
        match r {
            Ok(_) => final(server)@ == run(old(server)@, op_views(ops@)),
            Err(_) => exists|k: int|
                0 <= k < ops@.len() && final(server)@ == run(
                    old(server)@,
                    op_views(ops@.subrange(0, k)),
                ) && final(server)@.ready_for((#[trigger] ops@[k])@) && final(server)@.is_new(
                    ops@[k]@,
                ),
        },
{
    let ghost state0 = server@;
    let mut i: usize = 0;
    proof {
        assert(op_views(ops@.subrange(0, 0)) =~= Seq::<OpView>::empty());
    }
    while i < ops.len()
        invariant
            server.wf(),
            i <= ops@.len(),
            state0 == old(server)@,
            server@ == run(state0, op_views(ops@.subrange(0, i as int))),
        decreases ops@.len() - i,
    {
        let op = ops[i].clone();
        proof {
            let seen = ops@.subrange(0, i as int);
            assert(op_views(ops@.subrange(0, i + 1)) =~= op_views(seen).push(ops@[i as int]@));
            lemma_run_push(state0, op_views(seen), ops@[i as int]@);
        }
        match server.apply_remote_operation(op) {
            Ok(_) => {},
            Err(e) => {
                proof {
                    assert(server@.ready_for(ops@[i as int]@) && server@.is_new(ops@[i as int]@));
                }
                return Err(e);
            },
        }
        i = i + 1;
    }
    proof {
        assert(ops@.subrange(0, i as int) =~= ops@);
    }
    Ok(())
}

/// A part of a part is a part.
pub proof fn lemma_picks_compose(
    all: Seq<Operation>,
    mid: Seq<Operation>,
    part: Seq<Operation>,
    first: Seq<int>,
    second: Seq<int>,
) -> (both: Seq<int>)
    requires
        picks(all, mid, first),
        picks(mid, part, second),
    ensures
        picks(all, part, both),
        both.len() == second.len(),
        forall|k: int| 0 <= k < both.len() ==> #[trigger] both[k] == first[second[k]],
{
    let both = Seq::new(second.len(), |k: int| first[second[k]]);
    assert forall|k: int| 0 <= k < both.len() implies 0 <= #[trigger] both[k] < all.len() && part[k]
        == all[both[k]] by {
        assert(0 <= second[k] < mid.len());
        assert(part[k] == mid[second[k]]);
        assert(mid[second[k]] == all[first[second[k]]]);
    }
    assert forall|k: int, l: int| 0 <= k < l < both.len() implies #[trigger] both[k]
        < #[trigger] both[l] by {
        assert(second[k] < second[l]);
        assert(0 <= second[k]);
        assert(second[l] < mid.len());
        assert(first[second[k]] < first[second[l]]);
    }
    both
}

/// What a pass does with the answer of the server for the operation at
/// `place`: an operation that was applied leaves the buffer, and the place
/// is that of the next one; an operation that the server is not ready for,
/// or on which the store failed, stays, and the pass moves on.
pub fn pass_step(
    buffer: &mut PendingBuffer,
    report: &mut DrainReport,
    place: usize,
    answer: Result<bool, StorageError>,
) -> (next: usize)
    requires
        place < old(buffer)@.len(),
    ensures
        final(buffer).capacity() == old(buffer).capacity(),
        match answer {
            Ok(true) => {
                &&& final(buffer)@ == old(buffer)@.remove(place as int)
                &&& next == place
                &&& final(report).applied == (if old(report).applied < usize::MAX {
                    (old(report).applied + 1) as usize
                } else {
                    usize::MAX
                })
                &&& final(report).failures == old(report).failures
            },
            Ok(false) => {
                &&& final(buffer)@ == old(buffer)@
                &&& next == place + 1
                &&& *final(report) == *old(report)
            },
            Err(_) => {
                &&& final(buffer)@ == old(buffer)@
                &&& next == place + 1
                &&& final(report).applied == old(report).applied
                &&& final(report).failures == (if old(report).failures < usize::MAX {
                    (old(report).failures + 1) as usize
                } else {
                    usize::MAX
                })
            },
        },
{
    // the places of a buffer are counted in a `usize`, so the next one is too
    let _len: usize = buffer.len();
    match answer {
        Ok(true) => {
            let _gone = buffer.remove(place);
            if report.applied < usize::MAX {
                report.applied = report.applied + 1;
            }
            place
        },
        Ok(false) => place + 1,
        Err(_) => {
            if report.failures < usize::MAX {
                report.failures = report.failures + 1;
            }
            place + 1
        },
    }
}

/// One pass over the waiting operations.
pub fn apply_pass<S: Storage>(server: &mut Server<S>, buffer: &mut PendingBuffer) -> (r: DrainReport)
    requires
        old(server).wf(),
    ensures
        final(server).wf(),
        final(buffer).capacity() == old(buffer).capacity(),
        r.applied == old(buffer)@.len() - final(buffer)@.len(),
        worked(old(server)@, old(buffer)@, final(server)@, final(buffer)@),
        none_due(old(server)@, old(buffer)@) ==> r.failures == 0,
        r.failures == 0 ==> (final(server)@, final(buffer)@) == pass(old(server)@, old(buffer)@),
        r.applied == 0 ==> forall|i: int|
            0 <= i < final(buffer)@.len() ==> (final(server)@.ready_for(
                (#[trigger] final(buffer)@[i])@,
            ) ==> final(server)@.is_new(final(buffer)@[i]@)),
        r.applied == 0 && r.failures == 0 ==> forall|i: int|
            0 <= i < final(buffer)@.len() ==> !final(server)@.ready_for(
                (#[trigger] final(buffer)@[i])@,
            ),
{
    let ghost state0 = server@;
    let ghost ops0 = buffer@;
    let n0: usize = buffer.len();
    let mut report = DrainReport { applied: 0, failures: 0 };
    let mut i: usize = 0;
    let ghost mut places: Seq<int> = Seq::empty();
    let ghost mut done: Seq<Operation> = Seq::empty();
    proof {
        assert(ops0.subrange(0, 0) =~= Seq::<Operation>::empty());
        assert(ops0.subrange(0, ops0.len() as int) =~= ops0);
        assert(ops0.to_multiset() =~= ops0.to_multiset().add(done.to_multiset())) by {
            broadcast use vstd::multiset::group_multiset_axioms;
            done.to_multiset_ensures();
        }
    }
    while i < buffer.len()
        invariant
            server.wf(),
            server@.actor == state0.actor,
            buffer.capacity() == old(buffer).capacity(),
            i <= buffer@.len(),
            ops0.len() == n0,
            report.applied == ops0.len() - buffer@.len(),
            buffer@.subrange(i as int, buffer@.len() as int) == ops0.subrange(
                i + report.applied,
                ops0.len() as int,
            ),
            picks(ops0, buffer@.subrange(0, i as int), places),
            forall|p: int| 0 <= p < places.len() ==> #[trigger] places[p] < i + report.applied,
            forall|j: int|
                0 <= j < i + report.applied && !places.contains(j) ==> !server@.is_new(
                    (#[trigger] ops0[j])@,
                ),
            done.len() == report.applied,
            applied_in_turn(state0, ops0, server@, buffer@, done),
            vv_descends(server@.vv, state0.vv),
            none_due(state0, ops0) ==> server@ == state0 && report.failures == 0,
            report.failures == 0 ==> pass(state0, ops0) == pass_from(
                server@,
                buffer@.subrange(0, i as int),
                buffer@.subrange(i as int, buffer@.len() as int),
            ),
            report.applied == 0 ==> server@ == state0 && buffer@ == ops0,
            report.applied == 0 ==> forall|k: int|
                0 <= k < i ==> (server@.ready_for((#[trigger] buffer@[k])@) ==> server@.is_new(
                    buffer@[k]@,
                )),
            report.applied == 0 && report.failures == 0 ==> forall|k: int|
                0 <= k < i ==> !server@.ready_for((#[trigger] buffer@[k])@),
        decreases buffer@.len() - i,
    {
        let ghost before = buffer@;
        let ghost state = server@;
        let ghost at = i + report.applied;
        let ghost waiting = before[i as int];
        let op = buffer.operations()[i].clone();
        proof {
            let todo = before.subrange(i as int, before.len() as int);
            assert(todo[0] == waiting);
            assert(ops0.subrange(at, ops0.len() as int)[0] == ops0[at]);
            assert(waiting == ops0[at]);
            assert(todo.drop_first() =~= before.subrange(i + 1, before.len() as int));
            assert(before.subrange(0, i as int).push(waiting) =~= before.subrange(0, i + 1));
            crate::convergence::lemma_remote_step(state, waiting@);
            crate::laws::lemma_apply_idempotent(state, waiting@);
            crate::laws::lemma_descends_laws(
                state.apply_remote(waiting@).vv,
                state.vv,
                state0.vv,
            );
        }
        let answer = server.apply_remote_operation(op);
        let ghost answered = answer;
        i = pass_step(buffer, &mut report, i, answer);
        proof {
            match answered {
                Ok(true) => {
                    assert(buffer@.subrange(0, i as int) =~= before.subrange(0, i as int));
                    assert(buffer@.subrange(i as int, buffer@.len() as int) =~= before.subrange(
                        i + 1,
                        before.len() as int,
                    ));
                    assert(ops0.subrange(at + 1, ops0.len() as int) =~= ops0.subrange(
                        at,
                        ops0.len() as int,
                    ).drop_first());
                    assert forall|j: int| 0 <= j < at + 1 && !places.contains(j) implies !server@.is_new(
                        (#[trigger] ops0[j])@,
                    ) by {
                        if j < at {
                            lemma_seen_stays(state, server@, ops0[j]@);
                        }
                    }
                    let grown = done.push(waiting);
                    assert(grown.drop_last() =~= done);
                    assert(ops0.to_multiset() =~= buffer@.to_multiset().add(grown.to_multiset())) by {
                        broadcast use vstd::multiset::group_multiset_axioms;
                        before.to_multiset_ensures();
                        done.to_multiset_ensures();
                        assert(before.contains(waiting));
                    }
                    done = grown;
                },
                _ => {
                    let grown = places.push(at);
                    let prefix = buffer@.subrange(0, i as int);
                    assert(prefix =~= before.subrange(0, i - 1).push(waiting));
                    assert(buffer@.subrange(i as int, buffer@.len() as int) =~= before.subrange(
                        i - 1,
                        before.len() as int,
                    ).drop_first());
                    assert(ops0.subrange(at + 1, ops0.len() as int) =~= ops0.subrange(
                        at,
                        ops0.len() as int,
                    ).drop_first());
                    assert forall|k: int| 0 <= k < grown.len() implies 0 <= #[trigger] grown[k]
                        < ops0.len() && prefix[k] == ops0[grown[k]] by {
                        if k < places.len() {
                            assert(grown[k] == places[k]);
                            assert(prefix[k] == before.subrange(0, i - 1)[k]);
                        }
                    }
                    assert forall|k: int, l: int| 0 <= k < l < grown.len() implies #[trigger] grown[k]
                        < #[trigger] grown[l] by {
                        assert(grown[k] == places[k]);
                        if l < places.len() {
                            assert(grown[l] == places[l]);
                        }
                    }
                    assert forall|j: int| 0 <= j < at + 1 && !grown.contains(j) implies !server@.is_new(
                        (#[trigger] ops0[j])@,
                    ) by {
                        if j == at {
                            assert(grown[grown.len() - 1] == at);
                        } else if places.contains(j) {
                            let w = choose|w: int| 0 <= w < places.len() && places[w] == j;
                            assert(grown[w] == j);
                        }
                    }
                    assert forall|p: int| 0 <= p < grown.len() implies #[trigger] grown[p] < at
                        + 1 by {
                        if p < places.len() {
                            assert(grown[p] == places[p]);
                        }
                    }
                    places = grown;
                },
            }
        }
    }
    proof {
        assert(buffer@.subrange(0, i as int) =~= buffer@);
        assert(buffer@.subrange(i as int, buffer@.len() as int) =~= Seq::<Operation>::empty());
        assert(stayed(ops0, buffer@, places, server@));
        lemma_worked(state0, ops0, server@, buffer@, places, done);
    }
    report
}

/// The operations that stayed and those that were applied make up what
/// holds after the waiting operations were tried.
pub proof fn lemma_worked(
    before: ReplicaView,
    waiting: Seq<Operation>,
    after: ReplicaView,
    left: Seq<Operation>,
    places: Seq<int>,
    done: Seq<Operation>,
)
    requires
        after.actor == before.actor,
        vv_descends(after.vv, before.vv),
        stayed(waiting, left, places, after),
        done.len() == waiting.len() - left.len(),
        applied_in_turn(before, waiting, after, left, done),
        none_due(before, waiting) ==> after == before,
    ensures
        worked(before, waiting, after, left),
{
    assert forall|i: int| 0 <= i < waiting.len() && !left.contains(waiting[i]) implies !after.is_new(
        (#[trigger] waiting[i])@,
    ) by {
        if places.contains(i) {
            let p = choose|p: int| 0 <= p < places.len() && places[p] == i;
            assert(left[p] == waiting[i]);
        }
    }
    if left.len() == waiting.len() {
        assert(done =~= Seq::<Operation>::empty());
        lemma_picks_all(waiting, left, places);
    }
}

/// A part as long as the whole is the whole.
pub proof fn lemma_picks_all(all: Seq<Operation>, part: Seq<Operation>, places: Seq<int>)
    requires
        picks(all, part, places),
        part.len() == all.len(),
    ensures
        part == all,
        forall|k: int| 0 <= k < places.len() ==> #[trigger] places[k] == k,
{
    assert forall|k: int| 0 <= k < places.len() implies #[trigger] places[k] == k by {
        lemma_places_from_below(places, k);
        lemma_places_from_above(all.len() as int, places, k);
    }
    assert forall|k: int| 0 <= k < part.len() implies part[k] == all[k] by {
        assert(places[k] == k);
    }
    assert(part =~= all);
}

/// Places that go upwards from zero on: the place at `k` is `k` at least.
proof fn lemma_places_from_below(places: Seq<int>, k: int)
    requires
        forall|a: int| 0 <= a < places.len() ==> 0 <= #[trigger] places[a],
        forall|a: int, b: int| 0 <= a < b < places.len() ==> #[trigger] places[a] < #[trigger] places[b],
        0 <= k < places.len(),
    ensures
        places[k] >= k,
    decreases k,
{
    if k > 0 {
        lemma_places_from_below(places, k - 1);
        assert(places[k - 1] < places[k]);
    }
}

/// Places that go upwards below `n`: the place at `k` leaves room for those
/// after it.
proof fn lemma_places_from_above(n: int, places: Seq<int>, k: int)
    requires
        forall|a: int| 0 <= a < places.len() ==> #[trigger] places[a] < n,
        forall|a: int, b: int| 0 <= a < b < places.len() ==> #[trigger] places[a] < #[trigger] places[b],
        0 <= k < places.len(),
    ensures
        places[k] <= n - (places.len() - k),
    decreases places.len() - k,
{
    if k < places.len() - 1 {
        lemma_places_from_above(n, places, k + 1);
        assert(places[k] < places[k + 1]);
    }
}

/// Applies the waiting operations that the server is ready for, pass after
/// pass, until a pass applies none.
pub fn drain_pending<S: Storage>(server: &mut Server<S>, buffer: &mut PendingBuffer) -> (r:
    DrainReport)
    requires
        old(server).wf(),
    ensures
        final(server).wf(),
        final(buffer).capacity() == old(buffer).capacity(),
        r.applied == old(buffer)@.len() - final(buffer)@.len(),
        worked(old(server)@, old(buffer)@, final(server)@, final(buffer)@),
        none_due(old(server)@, old(buffer)@) ==> r.failures == 0,
        r.failures == 0 ==> (final(server)@, final(buffer)@) == drain(old(server)@, old(buffer)@),
        forall|i: int|
            0 <= i < final(buffer)@.len() ==> (final(server)@.ready_for(
                (#[trigger] final(buffer)@[i])@,
            ) ==> final(server)@.is_new(final(buffer)@[i]@)),
        r.failures == 0 ==> forall|i: int|
            0 <= i < final(buffer)@.len() ==> !final(server)@.ready_for(
                (#[trigger] final(buffer)@[i])@,
            ),
{
    let ghost state0 = server@;
    let ghost ops0 = buffer@;
    let n0: usize = buffer.len();
    let mut applied: usize = 0;
    let mut failures: usize = 0;
    let ghost mut places: Seq<int> = Seq::new(ops0.len(), |k: int| k);
    let ghost mut done: Seq<Operation> = Seq::empty();
    proof {
        assert(ops0.to_multiset() =~= ops0.to_multiset().add(done.to_multiset())) by {
            broadcast use vstd::multiset::group_multiset_axioms;
            done.to_multiset_ensures();
        }
        assert forall|j: int| 0 <= j < ops0.len() implies places.contains(j) by {
            assert(places[j] == j);
        }
        crate::laws::lemma_descends_laws(state0.vv, state0.vv, state0.vv);
    }
    loop
        invariant_except_break
            failures == 0 ==> drain(state0, ops0) == drain(server@, buffer@),
        invariant
            server.wf(),
            server@.actor == state0.actor,
            buffer.capacity() == old(buffer).capacity(),
            ops0.len() == n0,
            applied == ops0.len() - buffer@.len(),
            stayed(ops0, buffer@, places, server@),
            done.len() == applied,
            applied_in_turn(state0, ops0, server@, buffer@, done),
            vv_descends(server@.vv, state0.vv),
            none_due(state0, ops0) ==> server@ == state0 && failures == 0,
        ensures
            failures == 0 ==> (server@, buffer@) == drain(state0, ops0),
            forall|i: int|
                0 <= i < buffer@.len() ==> (server@.ready_for((#[trigger] buffer@[i])@)
                    ==> server@.is_new(buffer@[i]@)),
            failures == 0 ==> forall|i: int|
                0 <= i < buffer@.len() ==> !server@.ready_for((#[trigger] buffer@[i])@),
        decreases buffer@.len(),
    {
        let ghost mid_state = server@;
        let ghost mid = buffer@;
        let report = apply_pass(server, buffer);
        proof {
            let pass_places = choose|p: Seq<int>| stayed(mid, buffer@, p, server@);
            let pass_done = choose|d: Seq<Operation>|
                d.len() == mid.len() - buffer@.len() && applied_in_turn(
                    mid_state,
                    mid,
                    server@,
                    buffer@,
                    d,
                );
            let both = lemma_picks_compose(ops0, mid, buffer@, places, pass_places);
            crate::laws::lemma_descends_laws(server@.vv, mid_state.vv, state0.vv);
            assert forall|j: int| 0 <= j < ops0.len() && !both.contains(j) implies !server@.is_new(
                (#[trigger] ops0[j])@,
            ) by {
                if places.contains(j) {
                    let m = choose|m: int| 0 <= m < places.len() && places[m] == j;
                    assert(mid[m] == ops0[j]);
                    if pass_places.contains(m) {
                        let q = choose|q: int| 0 <= q < pass_places.len() && pass_places[q] == m;
                        assert(both[q] == j);
                    } else {
                        assert(!server@.is_new(mid[m]@));
                    }
                } else {
                    lemma_seen_stays(mid_state, server@, ops0[j]@);
                }
            }
            lemma_handed_concat(state0, done, pass_done);
            assert(ops0.to_multiset() =~= buffer@.to_multiset().add(
                (done + pass_done).to_multiset(),
            )) by {
                broadcast use vstd::multiset::group_multiset_axioms;
                vstd::seq_lib::lemma_multiset_commutative(done, pass_done);
            }
            if none_due(state0, ops0) {
                assert forall|i: int| 0 <= i < mid.len() implies !(mid_state.ready_for(
                    (#[trigger] mid[i])@,
                ) && mid_state.is_new(mid[i]@)) by {
                    assert(mid[i] == ops0[places[i]]);
                }
            }
            places = both;
            done = done + pass_done;
        }
        applied = applied + report.applied;
        failures = if report.failures > usize::MAX - failures {
            usize::MAX
        } else {
            failures + report.failures
        };
        if report.applied == 0 {
            break ;
        }
    }
    proof {
        lemma_worked(state0, ops0, server@, buffer@, places, done);
    }
    DrainReport { applied, failures }
}

/// Applies the waiting operations that the server is ready for, pass after
/// pass, until a pass applies none. Returns the number of operations
/// applied.
pub fn try_apply_buffered<S: Storage>(server: &mut Server<S>, buffer: &mut PendingBuffer) -> (r:
    usize)
    requires
        old(server).wf(),
    ensures
        final(server).wf(),
        final(buffer).capacity() == old(buffer).capacity(),
        r == old(buffer)@.len() - final(buffer)@.len(),
        worked(old(server)@, old(buffer)@, final(server)@, final(buffer)@),
        none_due(old(server)@, old(buffer)@) ==> (final(server)@, final(buffer)@) == drain(
            old(server)@,
            old(buffer)@,
        ),
        forall|i: int|
            0 <= i < final(buffer)@.len() ==> (final(server)@.ready_for(
                (#[trigger] final(buffer)@[i])@,
            ) ==> final(server)@.is_new(final(buffer)@[i]@)),
{
    drain_pending(server, buffer).applied
}

/// What became of an operation that was received.
#[derive(Debug)]
pub enum Received {
    /// It was applied, or had been applied before; then so many waiting
    /// operations were applied, and the store failed so many times on
    /// others.
    Applied { drained: usize, failures: usize },
    /// The server is not ready for it; it waits in the buffer.
    Buffered,
    /// The server is not ready for it and the buffer is full; it is lost.
    BufferFull,
    /// The store failed.
    Failed(StorageError),
}

/// Hands an operation that was received to the server. An operation that
/// the server is not ready for waits in the buffer; after one that was
/// applied, the waiting operations are tried again.
pub fn receive_operation<S: Storage>(
    server: &mut Server<S>,
    buffer: &mut PendingBuffer,
    operation: Operation,
) -> (r: Received)
    requires
        old(server).wf(),
    ensures
        final(server).wf(),
        final(server)@.actor == old(server)@.actor,
        final(buffer).capacity() == old(buffer).capacity(),
        match r {
            Received::Applied { drained, failures } => {
                &&& old(server)@.ready_for(operation@)
                &&& !final(server)@.is_new(operation@)
                &&& drained == old(buffer)@.len() - final(buffer)@.len()
                &&& worked(
                    old(server)@.apply_remote(operation@),
                    old(buffer)@,
                    final(server)@,
                    final(buffer)@,
                )
                &&& failures == 0 ==> (final(server)@, final(buffer)@) == drain(
                    old(server)@.apply_remote(operation@),
                    old(buffer)@,
                )
                &&& none_due(old(server)@.apply_remote(operation@), old(buffer)@) ==> failures == 0
                &&& forall|i: int|
                    0 <= i < final(buffer)@.len() ==> (final(server)@.ready_for(
                        (#[trigger] final(buffer)@[i])@,
                    ) ==> final(server)@.is_new(final(buffer)@[i]@))
                &&& failures == 0 ==> forall|i: int|
                    0 <= i < final(buffer)@.len() ==> !final(server)@.ready_for(
                        (#[trigger] final(buffer)@[i])@,
                    )
            },
            Received::Buffered => {
                &&& !old(server)@.ready_for(operation@)
                &&& old(buffer)@.len() < old(buffer).capacity()
                &&& final(server)@ == old(server)@
                &&& final(buffer)@.len() == old(buffer)@.len() + 1
                &&& final(buffer)@.drop_last() == old(buffer)@
                &&& final(buffer)@.last()@ == operation@
            },
            Received::BufferFull => {
                &&& !old(server)@.ready_for(operation@)
                &&& old(buffer)@.len() >= old(buffer).capacity()
                &&& final(server)@ == old(server)@
                &&& final(buffer)@ == old(buffer)@
            },
            Received::Failed(_) => {
                &&& old(server)@.ready_for(operation@)
                &&& old(server)@.is_new(operation@)
                &&& final(server)@ == old(server)@
                &&& final(buffer)@ == old(buffer)@
            },
        },
{
    let copy = operation.clone();
    let ghost before = server@;
    proof {
        crate::convergence::lemma_remote_step(before, operation@);
        crate::laws::lemma_apply_idempotent(before, operation@);
    }
    match server.apply_remote_operation(operation) {
        Ok(true) => {
            let report = drain_pending(server, buffer);
            proof {
                lemma_seen_stays(before.apply_remote(copy@), server@, copy@);
            }
            Received::Applied { drained: report.applied, failures: report.failures }
        },
        Ok(false) => {
            if buffer.add(copy) {
                proof {
                    assert(buffer@.drop_last() =~= old(buffer)@);
                }
                Received::Buffered
            } else {
                Received::BufferFull
            }
        },
        Err(e) => Received::Failed(e),
    }
}

/// Those of `all` that are not the replica `node_id` in its epoch `epoch`, in
/// their order.
pub open spec fn other_replicas(all: Seq<ReplicaInfoView>, node_id: u16, epoch: u8) -> Seq<
    ReplicaInfoView,
>
    decreases all.len(),
{
    if all.len() == 0 {
        Seq::empty()
    } else if all.last().node_id == node_id && all.last().epoch == epoch {
        other_replicas(all.drop_last(), node_id, epoch)
    } else {
        other_replicas(all.drop_last(), node_id, epoch).push(all.last())
    }
}

/// The replicas of the cluster other than the node itself.
pub fn peers_of(config: &Config) -> (r: Vec<ReplicaInfo>)
    ensures
        r@.map_values(|p: ReplicaInfo| p@) == other_replicas(
            config.cluster.replicas@.map_values(|p: ReplicaInfo| p@),
            config.server.node_id,
            config.server.epoch,
        ),
{
    let own = config.server.actor_id();
    let mut out: Vec<ReplicaInfo> = Vec::new();
    let mut i: usize = 0;
    let ghost all = config.cluster.replicas@.map_values(|p: ReplicaInfo| p@);
    proof {
        assert(all.subrange(0, 0) =~= Seq::<ReplicaInfoView>::empty());
        assert(out@.map_values(|p: ReplicaInfo| p@) =~= Seq::<ReplicaInfoView>::empty());
    }
    while i < config.cluster.replicas.len()
        invariant
            i <= config.cluster.replicas@.len(),
            all == config.cluster.replicas@.map_values(|p: ReplicaInfo| p@),
            own == (ActorId {
                version: 0,
                node_id: config.server.node_id,
                epoch: config.server.epoch,
            }),
            out@.map_values(|p: ReplicaInfo| p@) == other_replicas(
                all.subrange(0, i as int),
                config.server.node_id,
                config.server.epoch,
            ),
        decreases config.cluster.replicas@.len() - i,
    {
        let peer = &config.cluster.replicas[i];
        let ghost before = out@.map_values(|p: ReplicaInfo| p@);
        proof {
            let grown = all.subrange(0, i + 1);
            assert(grown.drop_last() =~= all.subrange(0, i as int));
            assert(grown.last() == peer@);
        }
        if peer.actor_id() != own {
            let copy = ReplicaInfo {
                node_id: peer.node_id,
                epoch: peer.epoch,
                addr: peer.addr.clone(),
            };
            out.push(copy);
            proof {
                assert(out@.map_values(|p: ReplicaInfo| p@) =~= before.push(peer@));
            }
        }
        i = i + 1;
    }
    proof {
        assert(all.subrange(0, i as int) =~= all);
    }
    out
}

/// The replicas stand in their order, so none occurs twice.
pub open spec fn in_order(peers: Seq<ReplicaInfo>) -> bool {
    forall|i: int, j: int|
        0 <= i < j < peers.len() ==> (#[trigger] peers[i])@.before((#[trigger] peers[j])@)
}

/// The replica `p` is among `peers`.
pub open spec fn holds(peers: Seq<ReplicaInfo>, p: ReplicaInfoView) -> bool {
    exists|i: int| 0 <= i < peers.len() && (#[trigger] peers[i])@ == p
}

/// Replicas in their order, each once.
pub struct PeerSet {
    items: Vec<ReplicaInfo>,
}

impl View for PeerSet {
    type V = Seq<ReplicaInfo>;

    closed spec fn view(&self) -> Seq<ReplicaInfo> {
        self.items@
    }
}

impl PeerSet {
    #[verifier::type_invariant]
    closed spec fn ordered(&self) -> bool {
        in_order(self.items@)
    }

    /// The replicas of `peers`, in their order, each once.
    pub fn from_vec(peers: Vec<ReplicaInfo>) -> (r: PeerSet)
        ensures
            in_order(r@),
            forall|p: ReplicaInfoView| holds(r@, p) <==> holds(peers@, p),
    {
        let mut items: Vec<ReplicaInfo> = Vec::new();
        let mut i: usize = 0;
        while i < peers.len()
            invariant
                i <= peers@.len(),
                in_order(items@),
                forall|p: ReplicaInfoView|
                    holds(items@, p) <==> holds(peers@.subrange(0, i as int), p),
            decreases peers@.len() - i,
        {
            let peer = &peers[i];
            let ghost before = items@;
            let ghost seen = peers@.subrange(0, i as int);
            let mut at: usize = 0;
            while at < items.len() && items[at].before(peer)
                invariant
                    at <= items@.len(),
                    forall|k: int| 0 <= k < at ==> (#[trigger] items@[k])@.before(peer@),
                decreases items@.len() - at,
            {
                at = at + 1;
            }
            let there = at < items.len() && items[at].same(peer);
            if !there {
                let copy = ReplicaInfo {
                    node_id: peer.node_id,
                    epoch: peer.epoch,
                    addr: peer.addr.clone(),
                };
                items.insert(at, copy);
                proof {
                    assert forall|a: int, b: int| 0 <= a < b < items@.len() implies (
                    #[trigger] items@[a])@.before((#[trigger] items@[b])@) by {
                        if b == at {
                            assert(items@[a] == before[a]);
                        } else if a == at {
                            assert(items@[b] == before[b - 1]);
                            lemma_replica_order(before[at as int]@, peer@, before[b - 1]@);
                            lemma_replica_order(peer@, before[at as int]@, before[b - 1]@);
                        } else if b < at {
                            assert(items@[a] == before[a] && items@[b] == before[b]);
                        } else if a < at {
                            assert(items@[a] == before[a] && items@[b] == before[b - 1]);
                        } else {
                            assert(items@[a] == before[a - 1] && items@[b] == before[b - 1]);
                        }
                    }
                }
            }
            proof {
                let next = peers@.subrange(0, i + 1);
                assert forall|p: ReplicaInfoView| holds(items@, p) <==> holds(next, p) by {
                    if holds(next, p) {
                        let k = choose|k: int| 0 <= k < next.len() && (#[trigger] next[k])@ == p;
                        if k < i {
                            assert(seen[k]@ == p);
                            assert(holds(before, p));
                        }
                        if holds(before, p) {
                            let m = choose|m: int|
                                0 <= m < before.len() && (#[trigger] before[m])@ == p;
                            if there || m < at {
                                assert(items@[m]@ == p);
                            } else {
                                assert(items@[m + 1]@ == p);
                            }
                        } else {
                            assert(p == peer@);
                            assert(items@[at as int]@ == p);
                        }
                    }
                    if holds(items@, p) {
                        let m = choose|m: int| 0 <= m < items@.len() && (#[trigger] items@[m])@ == p;
                        if !there && m == at {
                            assert(next[i as int]@ == p);
                        } else {
                            let w = if there || m < at {
                                m
                            } else {
                                m - 1
                            };
                            assert(before[w]@ == p);
                            assert(holds(before, p));
                            let k = choose|k: int| 0 <= k < seen.len() && (#[trigger] seen[k])@ == p;
                            assert(next[k]@ == p);
                        }
                    }
                }
            }
            i = i + 1;
        }
        proof {
            assert(peers@.subrange(0, i as int) =~= peers@);
        }
        PeerSet { items }
    }

    /// The replicas, in their order.
    pub fn as_slice(&self) -> (r: &[ReplicaInfo])
        ensures
            r@ == self@,
            in_order(r@),
    {
        proof {
            use_type_invariant(self);
        }
        self.items.as_slice()
    }

    /// The number of replicas.
    pub fn len(&self) -> (r: usize)
        ensures
            r == self@.len(),
    {
        self.items.len()
    }
}

/// The peers of a node and the buffers of its replication.
pub struct ReplicationManager {
    peers: PeerSet,
    pending_buffer: PendingBuffer,
    unsent_buffer: UnackedBuffer,
}

impl ReplicationManager {
    pub closed spec fn spec_peers(&self) -> Seq<ReplicaInfo> {
        self.peers@
    }

    pub closed spec fn pending(&self) -> PendingBuffer {
        self.pending_buffer
    }

    pub closed spec fn unacked(&self) -> UnackedBuffer {
        self.unsent_buffer
    }

    /// A manager for `peers` whose buffer of waiting operations takes
    /// `buffer_size` of them. It holds the peers in their order, each once.
    pub fn new(peers: Vec<ReplicaInfo>, buffer_size: usize) -> (r: Self)
        ensures
            in_order(r.spec_peers()),
            forall|p: ReplicaInfoView| holds(r.spec_peers(), p) <==> holds(peers@, p),
            r.pending()@ == Seq::<Operation>::empty(),
            r.pending().capacity() == buffer_size,
            r.unacked()@ == Map::<Seq<char>, Seq<(Operation, std::time::Instant, u32)>>::empty(),
    {
        ReplicationManager {
            peers: PeerSet::from_vec(peers),
            pending_buffer: PendingBuffer::new(buffer_size),
            unsent_buffer: UnackedBuffer::new(),
        }
    }

    /// The peers to which each operation is sent.
    pub fn peers(&self) -> (r: &[ReplicaInfo])
        ensures
            r@ == self.spec_peers(),
            in_order(r@),
    {
        self.peers.as_slice()
    }

    /// The operations that wait to be applied.
    pub fn pending_buffer(&mut self) -> (r: &mut PendingBuffer)
        ensures
            *r == old(self).pending(),
            final(self).pending() == *final(r),
            final(self).spec_peers() == old(self).spec_peers(),
            final(self).unacked() == old(self).unacked(),
    {
        &mut self.pending_buffer
    }

    /// The operations that were not sent.
    pub fn unacked_buffer(&mut self) -> (r: &mut UnackedBuffer)
        ensures
            *r == old(self).unacked(),
            final(self).unacked() == *final(r),
            final(self).spec_peers() == old(self).spec_peers(),
            final(self).pending() == old(self).pending(),
    {
        &mut self.unsent_buffer
    }

    /// Notes that `operation` could not be sent to the peer at `peer`, so
    /// that it can be sent again. The peer's queue goes by the text of its
    /// actor.
    pub fn record_unsent(&mut self, peer: usize, operation: Operation)
        requires
            peer < old(self).spec_peers().len(),
        ensures
            final(self).spec_peers() == old(self).spec_peers(),
            final(self).pending() == old(self).pending(),
            final(self).unacked().total() == old(self).unacked().total() + 1,
            ({
                let id = (ActorId {
                    version: 0,
                    node_id: old(self).spec_peers()[peer as int].node_id,
                    epoch: old(self).spec_peers()[peer as int].epoch,
                }).text();
                let before = if old(self).unacked()@.dom().contains(id) {
                    old(self).unacked()@[id]
                } else {
                    Seq::empty()
                };
                let after = final(self).unacked()@[id];
                &&& final(self).unacked()@.dom() == old(self).unacked()@.dom().insert(id)
                &&& forall|p: Seq<char>|
                    p != id && old(self).unacked()@.dom().contains(p) ==> #[trigger] final(self).unacked()@[p] == old(self).unacked()@[p]
                &&& after.len() == before.len() + 1
                &&& after.subrange(0, before.len() as int) == before
                &&& after.last().0 == operation
                &&& after.last().2 == 0
            }),
    {
        let id = self.peers.as_slice()[peer].actor_id().to_string();
        self.unsent_buffer.add(id, operation);
    }
}

} // verus!
