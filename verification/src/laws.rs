//! Laws of the store and of a replica.

use crate::replica_model::ReplicaView;
use crate::store_lemmas::{
    lemma_add_all, lemma_nonempty, lemma_operations_keep_wf, lemma_remove_all,
    lemma_rows_wf_update, lemma_support_member,
};
use crate::store_model::{rows_wf, single_dot, support, StoreView};
use crate::types::{ActorId, Dot, OpView};
use crate::version_vector::{lemma_ordered_index, ordered, vv_descends, vv_get, vv_update};
use vstd::prelude::*;

verus! {

/// In a store in order every dot row is within the version vector, and
/// every element row has a dot row.
pub proof fn lemma_store_invariants(s: StoreView, set: Seq<char>, i: int)
    requires
        s.wf(),
        s.sets.dom().contains(set),
        0 <= i < s.sets[set].len(),
    ensures
        forall|a: ActorId|
            s.sets[set][i].dots.dom().contains(a) ==> vv_get(s.vv, a) >= #[trigger] s.sets[set][i].dots[a],
        exists|a: ActorId| s.sets[set][i].dots.dom().contains(a),
        forall|j: int| 0 <= j < s.sets[set].len() && j != i ==> s.sets[set][j].value != s.sets[set][i].value,
{
    let rows = s.sets[set];
    assert(rows_wf(rows, s.vv));
    assert(crate::store_model::dots_wf(rows[i].dots, s.vv));
    if forall|a: ActorId| !rows[i].dots.dom().contains(a) {
        assert(rows[i].dots =~= Map::<ActorId, u64>::empty());
    }
    assert forall|j: int| 0 <= j < rows.len() && j != i implies rows[j].value != rows[i].value by {
        if j < i {
            assert(rows[j].value != rows[i].value);
        } else {
            assert(rows[i].value != rows[j].value);
        }
    }
}

/// Dot rows in the order of their actors hold at most one dot of each
/// actor.
pub proof fn lemma_one_dot_per_actor(dots: Seq<Dot>, i: int, j: int)
    requires
        ordered(dots),
        0 <= i < dots.len(),
        0 <= j < dots.len(),
        dots[i].actor_id == dots[j].actor_id,
    ensures
        i == j,
{
    lemma_ordered_index(dots, i);
    lemma_ordered_index(dots, j);
}

/// After a local add of a value the value is in the set, supported by the
/// new dot alone.
pub proof fn lemma_add_then_member(s: StoreView, set: Seq<char>, vs: Seq<Seq<u8>>, dot: Dot, x: Seq<u8>)
    requires
        s.wf(),
        vs.contains(x),
    ensures
        s.add_elements(set, vs, dot).members(set).contains(x),
        support(s.add_elements(set, vs, dot).elements(set), x) == single_dot(dot),
{
    let vv = vv_update(s.vv, dot.actor_id, dot.counter);
    let rows = s.elements(set);
    assert(rows_wf(rows, vv)) by {
        if s.sets.dom().contains(set) {
            lemma_rows_wf_update(s.sets[set], s.vv, dot.actor_id, dot.counter);
        }
    }
    lemma_add_all(rows, vs, dot, vv);
    let after = s.add_elements(set, vs, dot);
    assert(after.elements(set) == crate::store_model::add_all(rows, vs, dot));
    lemma_nonempty(single_dot(dot), dot.actor_id);
    lemma_support_member(after.elements(set), vv, x);
}

/// After a local remove of a value the value is not in the set.
pub proof fn lemma_remove_then_absent(s: StoreView, set: Seq<char>, vs: Seq<Seq<u8>>, dot: Dot, x: Seq<u8>)
    requires
        s.wf(),
        vs.contains(x),
    ensures
        !s.remove_elements(set, vs, dot).members(set).contains(x),
{
    let vv = vv_update(s.vv, dot.actor_id, dot.counter);
    let after = s.remove_elements(set, vs, dot);
    if s.sets.dom().contains(set) {
        lemma_rows_wf_update(s.sets[set], s.vv, dot.actor_id, dot.counter);
        lemma_remove_all(s.sets[set], vs, vv);
        lemma_support_member(after.elements(set), vv, x);
    }
}

/// A value that is added and then removed is not in the set.
pub proof fn lemma_add_then_remove(s: StoreView, set: Seq<char>, x: Seq<u8>, dot_add: Dot, dot_remove: Dot)
    requires
        s.wf(),
    ensures
        s.add_elements(set, seq![x], dot_add).members(set).contains(x),
        !s.add_elements(set, seq![x], dot_add).remove_elements(set, seq![x], dot_remove).members(set).contains(x),
{
    assert(seq![x][0] == x);
    lemma_add_then_member(s, set, seq![x], dot_add, x);
    lemma_operations_keep_wf(s, set, seq![x], Seq::empty(), dot_add);
    lemma_remove_then_absent(s.add_elements(set, seq![x], dot_add), set, seq![x], dot_remove, x);
}

/// The writes of a replica and the operations that it applies keep its
/// invariants, and never lower a counter of its version vector.
pub proof fn lemma_replica_steps(r: ReplicaView, set: Seq<char>, vs: Seq<Seq<u8>>, op: OpView)
    requires
        r.wf(),
        vv_get(r.vv, r.actor) < u64::MAX,
    ensures
        r.local_add(set, vs).wf(),
        r.local_remove(set, vs).wf(),
        r.apply_remote(op).wf(),
        vv_descends(r.local_add(set, vs).vv, r.vv),
        vv_descends(r.local_remove(set, vs).vv, r.vv),
        vv_descends(r.apply_remote(op).vv, r.vv),
{
    let dot = r.next_dot();
    lemma_operations_keep_wf(r.store, set, vs, Seq::empty(), dot);
    lemma_operations_keep_wf(r.store, op.set_name, op.elements, op.removed_dots, op.dot);
    assert(vv_descends(r.local_add(set, vs).vv, r.local_add(set, vs).store.vv)) by {
        assert forall|a: ActorId| #[trigger] r.local_add(set, vs).store.vv.dom().contains(a) implies vv_get(
            r.local_add(set, vs).vv,
            a,
        ) >= r.local_add(set, vs).store.vv[a] by {
            if r.store.vv.dom().contains(a) {
                assert(vv_get(r.vv, a) >= r.store.vv[a]);
            }
        }
    }
    assert(vv_descends(r.local_remove(set, vs).vv, r.local_remove(set, vs).store.vv)) by {
        assert forall|a: ActorId|
            #[trigger] r.local_remove(set, vs).store.vv.dom().contains(a) implies vv_get(
            r.local_remove(set, vs).vv,
            a,
        ) >= r.local_remove(set, vs).store.vv[a] by {
            if r.store.vv.dom().contains(a) {
                assert(vv_get(r.vv, a) >= r.store.vv[a]);
            }
        }
    }
    assert(vv_descends(r.apply_remote(op).vv, r.apply_remote(op).store.vv)) by {
        assert forall|a: ActorId| #[trigger] r.apply_remote(op).store.vv.dom().contains(a) implies vv_get(
            r.apply_remote(op).vv,
            a,
        ) >= r.apply_remote(op).store.vv[a] by {
            if r.store.vv.dom().contains(a) {
                assert(vv_get(r.vv, a) >= r.store.vv[a]);
            }
        }
    }
    assert forall|a: ActorId| #[trigger] r.vv.dom().contains(a) implies vv_get(r.local_add(set, vs).vv, a)
        >= r.vv[a] && vv_get(r.local_remove(set, vs).vv, a) >= r.vv[a] && vv_get(
        r.apply_remote(op).vv,
        a,
    ) >= r.vv[a] by {}
}

/// Applying an operation twice is applying it once: the second time the
/// replica has seen the operation's dot.
pub proof fn lemma_apply_idempotent(r: ReplicaView, op: OpView)
    ensures
        r.apply_remote(op).apply_remote(op) == r.apply_remote(op),
        r.ready_for(op) ==> r.apply_remote(op).ready_for(op) && !r.apply_remote(op).is_new(op),
{
    if r.ready_for(op) && r.is_new(op) {
        let after = r.apply_remote(op);
        assert(vv_get(after.vv, op.dot.actor_id) >= op.dot.counter);
        assert forall|a: ActorId| #[trigger] op.context.dom().contains(a) implies vv_get(after.vv, a)
            >= op.context[a] by {
            assert(vv_get(r.vv, a) >= op.context[a]);
        }
    }
}

/// Learning a counter twice is learning it once, and lowers no counter.
pub proof fn lemma_update_laws(m: Map<ActorId, u64>, a: ActorId, c: u64)
    ensures
        vv_update(vv_update(m, a, c), a, c) == vv_update(m, a, c),
        vv_descends(vv_update(m, a, c), m),
        vv_get(vv_update(m, a, c), a) >= c,
{
    assert(vv_update(vv_update(m, a, c), a, c) =~= vv_update(m, a, c));
}

/// Merging a vector twice is merging it once; the merged vector has seen
/// all that either vector has seen; and the order of merging is free.
pub proof fn lemma_merge_laws(m: Map<ActorId, u64>, other: Map<ActorId, u64>)
    ensures
        crate::version_vector::vv_merge(crate::version_vector::vv_merge(m, other), other)
            == crate::version_vector::vv_merge(m, other),
        vv_descends(crate::version_vector::vv_merge(m, other), m),
        vv_descends(crate::version_vector::vv_merge(m, other), other),
        crate::version_vector::vv_merge(m, other) == crate::version_vector::vv_merge(other, m),
{
    let once = crate::version_vector::vv_merge(m, other);
    assert(crate::version_vector::vv_merge(once, other) =~= once);
    assert(once =~= crate::version_vector::vv_merge(other, m));
}

/// A vector has seen what it has seen, and what a vector that it descends
/// has seen.
pub proof fn lemma_descends_laws(a: Map<ActorId, u64>, b: Map<ActorId, u64>, c: Map<ActorId, u64>)
    ensures
        vv_descends(a, a),
        vv_descends(a, b) && vv_descends(b, c) ==> vv_descends(a, c),
{
    if vv_descends(a, b) && vv_descends(b, c) {
        assert forall|x: ActorId| #[trigger] c.dom().contains(x) implies vv_get(a, x) >= c[x] by {
            assert(vv_get(b, x) >= c[x]);
            if b.dom().contains(x) {
                assert(vv_get(a, x) >= b[x]);
            }
        }
    }
}

/// No storage operation lowers a counter of the store's version vector.
pub proof fn lemma_store_vv_grows(
    s: StoreView,
    set: Seq<char>,
    vs: Seq<Seq<u8>>,
    removed: Seq<Dot>,
    dot: Dot,
)
    ensures
        vv_descends(s.add_elements(set, vs, dot).vv, s.vv),
        vv_descends(s.remove_elements(set, vs, dot).vv, s.vv),
        vv_descends(s.replicate_add(set, vs, removed, dot).vv, s.vv),
        vv_descends(s.replicate_remove(set, vs, removed, dot).vv, s.vv),
{
    lemma_update_laws(s.vv, dot.actor_id, dot.counter);
    lemma_descends_laws(s.vv, s.vv, s.vv);
}

} // verus!
