//! Histories of replicas: the writes that a replica makes and the operations
//! of other replicas that it applies, in the order in which they happen.
//! Replicas whose histories hold the same operations hold the same.

use crate::convergence::{
    all_applied, all_causal, causal, lemma_convergence, lemma_local_is_remote,
    lemma_local_ops_causal, lemma_remote_step, lemma_same_members, lemma_same_step, run,
    same_content,
};
use crate::laws::lemma_replica_steps;
use crate::replica_model::ReplicaView;
use crate::store_model::{displaced_one, remove_all, remove_displaced, ElementView};
use crate::types::{ActorId, Dot, OpView};
use crate::version_vector::{dots_map, lemma_sorted_dots, vv_get};
use vstd::prelude::*;

verus! {

/// One step of a replica.
pub enum Step {
    /// The replica adds the values to the set.
    Add { set: Seq<char>, values: Seq<Seq<u8>> },
    /// The replica removes the values from the set.
    Remove { set: Seq<char>, values: Seq<Seq<u8>> },
    /// The replica applies an operation that another replica made.
    Remote { op: OpView },
}

/// The operation of a step: the one that the write sends out, or the one
/// that is applied.
pub open spec fn op_of(r: ReplicaView, step: Step) -> OpView {
    match step {
        Step::Add { set, values } => r.local_add_op(set, values),
        Step::Remove { set, values } => r.local_remove_op(set, values),
        Step::Remote { op } => op,
    }
}

/// The replica after a step.
pub open spec fn after(r: ReplicaView, step: Step) -> ReplicaView {
    match step {
        Step::Add { set, values } => r.local_add(set, values),
        Step::Remove { set, values } => r.local_remove(set, values),
        Step::Remote { op } => r.apply_remote(op),
    }
}

/// The step happens, and the other replicas can learn of it: a write names
/// a value, is made while the replica's counter has a next value, and, where
/// it is a remove, displaces a dot, so that an operation is sent; an
/// operation of another replica is one that the replica is ready for and has
/// not seen, and lists only dots that its maker had seen.
pub open spec fn takes(r: ReplicaView, step: Step) -> bool {
    match step {
        Step::Add { set, values } => values.len() > 0 && vv_get(r.vv, r.actor) < u64::MAX,
        Step::Remove { set, values } => values.len() > 0 && vv_get(r.vv, r.actor) < u64::MAX
            && r.local_remove_op(set, values).removed_dots.len() > 0,
        Step::Remote { op } => r.ready_for(op) && r.is_new(op) && causal(op),
    }
}

/// The replica after the steps, one after the other.
pub open spec fn history(r: ReplicaView, steps: Seq<Step>) -> ReplicaView
    decreases steps.len(),
{
    if steps.len() == 0 {
        r
    } else {
        history(after(r, steps[0]), steps.drop_first())
    }
}

/// The operations of the steps, in their order.
pub open spec fn operations(r: ReplicaView, steps: Seq<Step>) -> Seq<OpView>
    decreases steps.len(),
{
    if steps.len() == 0 {
        Seq::empty()
    } else {
        seq![op_of(r, steps[0])] + operations(after(r, steps[0]), steps.drop_first())
    }
}

/// Each of the steps happens when its turn comes.
pub open spec fn all_taken(r: ReplicaView, steps: Seq<Step>) -> bool
    decreases steps.len(),
{
    steps.len() == 0 || (takes(r, steps[0]) && all_taken(after(r, steps[0]), steps.drop_first()))
}

/// Removing from no rows displaces no dot.
proof fn lemma_nothing_to_displace(vs: Seq<Seq<u8>>)
    ensures
        remove_all(Seq::<ElementView>::empty(), vs) == Seq::<ElementView>::empty(),
        remove_displaced(Seq::<ElementView>::empty(), vs) == Seq::<Dot>::empty(),
    decreases vs.len(),
{
    if vs.len() > 0 {
        lemma_nothing_to_displace(vs.drop_last());
        let none = Seq::<Dot>::empty();
        assert(dots_map(none) =~= Map::<ActorId, u64>::empty());
        lemma_sorted_dots(none);
        assert(displaced_one(Seq::<ElementView>::empty(), vs.last()) == none);
        assert(none + none =~= none);
    }
}

/// A step that happens is the same as its operation, applied to the replica
/// as it was; the replica stays in order, and the operation lists only dots
/// that its maker had seen.
pub proof fn lemma_step_is_remote(r: ReplicaView, step: Step)
    requires
        r.wf(),
        takes(r, step),
    ensures
        r.ready_for(op_of(r, step)),
        r.is_new(op_of(r, step)),
        causal(op_of(r, step)),
        after(r, step).wf(),
        same_content(after(r, step), r.apply_remote(op_of(r, step))),
{
    match step {
        Step::Add { set, values } => {
            lemma_local_is_remote(r, set, values);
            lemma_local_ops_causal(r, set, values);
            lemma_replica_steps(r, set, values, op_of(r, step));
        },
        Step::Remove { set, values } => {
            if !r.store.sets.dom().contains(set) {
                lemma_nothing_to_displace(values);
            }
            lemma_local_is_remote(r, set, values);
            lemma_local_ops_causal(r, set, values);
            lemma_replica_steps(r, set, values, op_of(r, step));
        },
        Step::Remote { op } => {
            lemma_remote_step(r, op);
        },
    }
}

/// A history comes to what its operations come to, applied one after the
/// other to a replica that held the same at the start.
pub proof fn lemma_history_is_run(r: ReplicaView, twin: ReplicaView, steps: Seq<Step>)
    requires
        r.wf(),
        twin.wf(),
        same_content(r, twin),
        all_taken(r, steps),
    ensures
        history(r, steps).wf(),
        run(twin, operations(r, steps)).wf(),
        same_content(history(r, steps), run(twin, operations(r, steps))),
        all_applied(twin, operations(r, steps)),
        all_causal(operations(r, steps)),
        operations(r, steps).len() == steps.len(),
    decreases steps.len(),
{
    if steps.len() > 0 {
        let op = op_of(r, steps[0]);
        let next = after(r, steps[0]);
        let rest = steps.drop_first();
        let ops = operations(r, steps);
        lemma_step_is_remote(r, steps[0]);
        lemma_same_step(r, twin, op);
        lemma_remote_step(r, op);
        lemma_remote_step(twin, op);
        lemma_same_content_chain(next, r.apply_remote(op), twin.apply_remote(op));
        lemma_history_is_run(next, twin.apply_remote(op), rest);
        assert(ops[0] == op);
        assert(ops.drop_first() =~= operations(next, rest));
        assert forall|i: int| 0 <= i < ops.len() implies causal(#[trigger] ops[i]) by {
            if i > 0 {
                assert(ops[i] == operations(next, rest)[i - 1]);
            }
        }
    }
}

/// To hold the same is passed on.
pub proof fn lemma_same_content_chain(a: ReplicaView, b: ReplicaView, c: ReplicaView)
    requires
        same_content(a, b),
        same_content(b, c),
    ensures
        same_content(a, c),
        same_content(b, a),
{
    assert forall|set: Seq<char>, v: Seq<u8>|
        #![trigger crate::convergence::dots_at(a.store, set, v)]
        #![trigger crate::convergence::dots_at(c.store, set, v)]
        crate::convergence::dots_at(a.store, set, v) == crate::convergence::dots_at(
            c.store,
            set,
            v,
        ) by {
        assert(crate::convergence::dots_at(a.store, set, v) == crate::convergence::dots_at(
            b.store,
            set,
            v,
        ));
    }
}

/// Convergence of histories: two replicas that held the same at the start,
/// each with its own writes and with the operations of others that it
/// applied, hold the same once their histories hold the same operations,
/// whatever the order in which each met them; so they have the same members
/// in every set.
pub proof fn lemma_histories_converge(
    a: ReplicaView,
    b: ReplicaView,
    steps_a: Seq<Step>,
    steps_b: Seq<Step>,
)
    requires
        a.wf(),
        b.wf(),
        same_content(a, b),
        all_taken(a, steps_a),
        all_taken(b, steps_b),
        operations(a, steps_a).to_multiset() == operations(b, steps_b).to_multiset(),
    ensures
        same_content(history(a, steps_a), history(b, steps_b)),
        forall|set: Seq<char>| #[trigger]
            history(a, steps_a).store.members(set) == history(b, steps_b).store.members(set),
{
    let ops_a = operations(a, steps_a);
    let ops_b = operations(b, steps_b);
    let end_a = history(a, steps_a);
    let end_b = history(b, steps_b);
    lemma_same_content_chain(a, a, a);
    lemma_same_content_chain(a, b, b);
    lemma_history_is_run(a, a, steps_a);
    lemma_history_is_run(b, a, steps_b);
    lemma_convergence(a, ops_a, ops_b);
    lemma_same_content_chain(end_a, run(a, ops_a), run(a, ops_b));
    lemma_same_content_chain(end_b, run(a, ops_b), run(a, ops_b));
    lemma_same_content_chain(end_a, run(a, ops_b), end_b);
    assert forall|set: Seq<char>| #[trigger]
        end_a.store.members(set) == end_b.store.members(set) by {
        lemma_same_members(end_a, end_b, set);
    }
}

} // verus!
