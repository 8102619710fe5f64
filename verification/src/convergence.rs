//! What an operation does to the dots that support each value, and the laws
//! of replicas that exchange operations.

use crate::replica_model::ReplicaView;
use crate::store_lemmas::{
    lemma_add_all, lemma_nonempty, lemma_operations_keep_wf, lemma_remove_all,
    lemma_replicate_add_all, lemma_replicate_remove_all, lemma_rows_wf_update,
    lemma_support_member,
};
use crate::store_model::{
    add_all, add_displaced, keep_dots, remove_all, remove_displaced, replicate_add_all,
    replicate_remove_all, rows_wf, single_dot, support, ElementView, StoreView,
};
use crate::types::{ActorId, Dot, OpView};
use crate::version_vector::{
    lemma_ordered_index, lemma_sorted_dots_of, sorted_dots, vv_descends, vv_get, vv_increment,
    vv_update,
};
use vstd::prelude::*;

verus! {

/// The dots that support `v` in the set `set` of a store.
pub open spec fn dots_at(s: StoreView, set: Seq<char>, v: Seq<u8>) -> Map<ActorId, u64> {
    support(s.elements(set), v)
}

/// The operation names `v` in the set `set`.
pub open spec fn touches(op: OpView, set: Seq<char>, v: Seq<u8>) -> bool {
    op.set_name == set && op.elements.contains(v)
}

/// The dots that support a value after an operation that names it.
pub open spec fn dots_after(m: Map<ActorId, u64>, op: OpView) -> Map<ActorId, u64> {
    if op.is_add {
        keep_dots(m, op.removed_dots).insert(op.dot.actor_id, op.dot.counter)
    } else {
        keep_dots(m, op.removed_dots)
    }
}

/// Two replicas hold the same: the same version vectors, the same sets, and
/// for every value the same dots. The order of the rows is left open.
pub open spec fn same_content(a: ReplicaView, b: ReplicaView) -> bool {
    &&& a.vv == b.vv
    &&& a.store.vv == b.store.vv
    &&& a.store.sets.dom() == b.store.sets.dom()
    &&& forall|set: Seq<char>, v: Seq<u8>|
        #![trigger dots_at(a.store, set, v)]
        #![trigger dots_at(b.store, set, v)]
        dots_at(a.store, set, v) == dots_at(b.store, set, v)
}

/// A value is in a set exactly where a dot supports it.
pub proof fn lemma_member_dots(s: StoreView, set: Seq<char>, v: Seq<u8>)
    requires
        s.wf(),
    ensures
        s.members(set).contains(v) == (dots_at(s, set, v) != Map::<ActorId, u64>::empty()),
{
    if s.sets.dom().contains(set) {
        lemma_support_member(s.sets[set], s.vv, v);
    }
}

/// Replicas that hold the same have the same members in every set.
pub proof fn lemma_same_members(a: ReplicaView, b: ReplicaView, set: Seq<char>)
    requires
        a.wf(),
        b.wf(),
        same_content(a, b),
    ensures
        a.store.members(set) == b.store.members(set),
{
    assert forall|v: Seq<u8>| a.store.members(set).contains(v) == b.store.members(set).contains(v) by {
        lemma_member_dots(a.store, set, v);
        lemma_member_dots(b.store, set, v);
        assert(dots_at(a.store, set, v) == dots_at(b.store, set, v));
    }
    assert(a.store.members(set) =~= b.store.members(set));
}

/// An operation from another replica keeps the invariants of the replica
/// and lowers no counter.
pub proof fn lemma_remote_step(r: ReplicaView, op: OpView)
    requires
        r.wf(),
    ensures
        r.apply_remote(op).wf(),
        vv_descends(r.apply_remote(op).vv, r.vv),
        r.apply_remote(op).actor == r.actor,
{
    lemma_operations_keep_wf(r.store, op.set_name, op.elements, op.removed_dots, op.dot);
    let t = r.apply_remote(op);
    assert forall|a: ActorId| #[trigger] t.store.vv.dom().contains(a) implies vv_get(t.vv, a)
        >= t.store.vv[a] by {
        if r.store.vv.dom().contains(a) {
            assert(vv_get(r.vv, a) >= r.store.vv[a]);
        }
    }
    assert forall|a: ActorId| #[trigger] r.vv.dom().contains(a) implies vv_get(t.vv, a) >= r.vv[a] by {}
}

/// What an operation does to the store of a replica that applies it: an
/// add makes its set, and each value that it names loses the dots that the
/// operation lists and, with an add, gets the operation's dot.
pub proof fn lemma_store_after(r: ReplicaView, op: OpView)
    requires
        r.store.wf(),
    ensures
        r.store_after(op).vv == vv_update(r.store.vv, op.dot.actor_id, op.dot.counter),
        r.store_after(op).sets.dom() == (if op.is_add && op.elements.len() > 0 {
            r.store.sets.dom().insert(op.set_name)
        } else {
            r.store.sets.dom()
        }),
        forall|set: Seq<char>, v: Seq<u8>|
            #![trigger dots_at(r.store_after(op), set, v)]
            dots_at(r.store_after(op), set, v) == (if touches(op, set, v) {
                dots_after(dots_at(r.store, set, v), op)
            } else {
                dots_at(r.store, set, v)
            }),
{
    let t = ReplicaView { actor: r.actor, vv: r.vv, store: r.store_after(op) };
    let vv = vv_update(r.store.vv, op.dot.actor_id, op.dot.counter);
    let rows = r.store.elements(op.set_name);
    assert(rows_wf(rows, vv)) by {
        if r.store.sets.dom().contains(op.set_name) {
            lemma_rows_wf_update(r.store.sets[op.set_name], r.store.vv, op.dot.actor_id, op.dot.counter);
        }
    }
    if op.is_add {
        lemma_replicate_add_all(rows, op.elements, op.removed_dots, op.dot, vv);
        assert(t.store.sets.dom() =~= (if op.elements.len() > 0 {
            r.store.sets.dom().insert(op.set_name)
        } else {
            r.store.sets.dom()
        }));
        assert forall|set: Seq<char>, v: Seq<u8>|
            #![trigger dots_at(t.store, set, v)]
            dots_at(t.store, set, v) == (if touches(op, set, v) {
                dots_after(dots_at(r.store, set, v), op)
            } else {
                dots_at(r.store, set, v)
            }) by {
            if op.elements.len() > 0 && set == op.set_name {
                assert(t.store.elements(set) == replicate_add_all(
                    rows,
                    op.elements,
                    op.removed_dots,
                    op.dot,
                ));
            } else if op.elements.len() > 0 {
                assert(t.store.elements(set) == r.store.elements(set));
            } else {
                assert(!op.elements.contains(v));
            }
        }
    } else {
        lemma_replicate_remove_all(rows, op.elements, op.removed_dots, vv);
        assert(t.store.sets.dom() =~= r.store.sets.dom());
        assert forall|set: Seq<char>, v: Seq<u8>|
            #![trigger dots_at(t.store, set, v)]
            dots_at(t.store, set, v) == (if touches(op, set, v) {
                dots_after(dots_at(r.store, set, v), op)
            } else {
                dots_at(r.store, set, v)
            }) by {
            if r.store.sets.dom().contains(op.set_name) {
                if set == op.set_name {
                    assert(t.store.elements(set) == replicate_remove_all(
                        rows,
                        op.elements,
                        op.removed_dots,
                    ));
                } else {
                    assert(t.store.elements(set) == r.store.elements(set));
                }
            } else {
                assert(t.store.elements(set) == r.store.elements(set));
                if set == op.set_name {
                    assert(dots_at(r.store, set, v) == Map::<ActorId, u64>::empty());
                    assert(keep_dots(Map::<ActorId, u64>::empty(), op.removed_dots) =~= Map::<
                        ActorId,
                        u64,
                    >::empty());
                }
            }
        }
    }
}

/// What an operation that is applied does to a replica: the version
/// vectors learn its dot, an add makes its set, and each value that it
/// names loses the dots that the operation lists and, with an add, gets the
/// operation's dot.
pub proof fn lemma_apply_content(r: ReplicaView, op: OpView)
    requires
        r.wf(),
        r.ready_for(op),
        r.is_new(op),
    ensures
        r.apply_remote(op).wf(),
        r.apply_remote(op).actor == r.actor,
        r.apply_remote(op).vv == vv_update(r.vv, op.dot.actor_id, op.dot.counter),
        r.apply_remote(op).store.vv == vv_update(r.store.vv, op.dot.actor_id, op.dot.counter),
        r.apply_remote(op).store.sets.dom() == (if op.is_add && op.elements.len() > 0 {
            r.store.sets.dom().insert(op.set_name)
        } else {
            r.store.sets.dom()
        }),
        forall|set: Seq<char>, v: Seq<u8>|
            #![trigger dots_at(r.apply_remote(op).store, set, v)]
            dots_at(r.apply_remote(op).store, set, v) == (if touches(op, set, v) {
                dots_after(dots_at(r.store, set, v), op)
            } else {
                dots_at(r.store, set, v)
            }),
{
    lemma_remote_step(r, op);
    lemma_store_after(r, op);
}

/// Every dot that the operation lists had been seen by its maker, or is the
/// dot of the add itself, which an add lists where it names a value twice.
pub open spec fn causal(op: OpView) -> bool {
    forall|i: int|
        0 <= i < op.removed_dots.len() ==> {
            let d = #[trigger] op.removed_dots[i];
            vv_get(op.context, d.actor_id) >= d.counter || (op.is_add && d == op.dot)
        }
}

/// The dots that a local remove displaces were within the version vector.
pub proof fn lemma_remove_displaced_seen(
    rows: Seq<ElementView>,
    vs: Seq<Seq<u8>>,
    vv: Map<ActorId, u64>,
    i: int,
)
    requires
        rows_wf(rows, vv),
        0 <= i < remove_displaced(rows, vs).len(),
    ensures
        vv_get(vv, remove_displaced(rows, vs)[i].actor_id) >= remove_displaced(rows, vs)[i].counter,
    decreases vs.len(),
{
    if vs.len() > 0 {
        let p = vs.drop_last();
        let head = remove_displaced(rows, p);
        let mid = remove_all(rows, p);
        if i < head.len() {
            lemma_remove_displaced_seen(rows, p, vv, i);
        } else {
            lemma_remove_all(rows, p, vv);
            lemma_support_member(mid, vv, vs.last());
            let m = support(mid, vs.last());
            lemma_sorted_dots_of(m);
            lemma_ordered_index(sorted_dots(m), i - head.len());
        }
    }
}

/// The dots that a local add displaces were within the version vector, or
/// are the dot of the add.
pub proof fn lemma_add_displaced_seen(
    rows: Seq<ElementView>,
    vs: Seq<Seq<u8>>,
    dot: Dot,
    vv: Map<ActorId, u64>,
    i: int,
)
    requires
        rows_wf(rows, vv),
        0 <= i < add_displaced(rows, vs, dot).len(),
    ensures
        vv_get(vv, add_displaced(rows, vs, dot)[i].actor_id) >= add_displaced(rows, vs, dot)[i].counter
            || add_displaced(rows, vs, dot)[i] == dot,
    decreases vs.len(),
{
    if vs.len() > 0 {
        let p = vs.drop_last();
        let head = add_displaced(rows, p, dot);
        let mid = add_all(rows, p, dot);
        if i < head.len() {
            lemma_add_displaced_seen(rows, p, dot, vv, i);
        } else {
            let vv_new = vv_update(vv, dot.actor_id, dot.counter);
            lemma_rows_wf_update(rows, vv, dot.actor_id, dot.counter);
            lemma_add_all(rows, p, dot, vv_new);
            lemma_support_member(mid, vv_new, vs.last());
            lemma_support_member(rows, vv, vs.last());
            let m = support(mid, vs.last());
            lemma_sorted_dots_of(m);
            lemma_ordered_index(sorted_dots(m), i - head.len());
            let d = sorted_dots(m)[i - head.len()];
            if p.contains(vs.last()) {
                assert(m == single_dot(dot));
                assert(d == dot);
            } else {
                assert(m == support(rows, vs.last()));
            }
        }
    }
}

/// The operations that a replica makes are causal.
pub proof fn lemma_local_ops_causal(r: ReplicaView, set: Seq<char>, vs: Seq<Seq<u8>>)
    requires
        r.wf(),
    ensures
        causal(r.local_add_op(set, vs)),
        causal(r.local_remove_op(set, vs)),
{
    let rows = r.store.elements(set);
    assert(rows_wf(rows, r.store.vv));
    let add = r.local_add_op(set, vs);
    assert forall|i: int| 0 <= i < add.removed_dots.len() implies {
        let d = #[trigger] add.removed_dots[i];
        vv_get(add.context, d.actor_id) >= d.counter || (add.is_add && d == add.dot)
    } by {
        lemma_add_displaced_seen(rows, vs, r.next_dot(), r.store.vv, i);
        let d = add.removed_dots[i];
        if r.store.vv.dom().contains(d.actor_id) {
            assert(vv_get(r.vv, d.actor_id) >= r.store.vv[d.actor_id]);
        }
    }
    let rem = r.local_remove_op(set, vs);
    assert forall|i: int| 0 <= i < rem.removed_dots.len() implies {
        let d = #[trigger] rem.removed_dots[i];
        vv_get(rem.context, d.actor_id) >= d.counter || (rem.is_add && d == rem.dot)
    } by {
        lemma_remove_displaced_seen(rows, vs, r.store.vv, i);
        let d = rem.removed_dots[i];
        if r.store.vv.dom().contains(d.actor_id) {
            assert(vv_get(r.vv, d.actor_id) >= r.store.vv[d.actor_id]);
        }
    }
}

/// A causal operation does not list a dot that a replica which is ready for
/// it has not seen, but for its own dot.
pub proof fn lemma_unseen_not_listed(r: ReplicaView, op: OpView, d: Dot)
    requires
        causal(op),
        r.ready_for(op),
        d.counter > vv_get(r.vv, d.actor_id),
        d != op.dot,
    ensures
        !op.removed_dots.contains(d),
{
    if op.removed_dots.contains(d) {
        let i = choose|i: int| 0 <= i < op.removed_dots.len() && op.removed_dots[i] == d;
        assert(vv_get(op.context, d.actor_id) >= d.counter);
        assert(op.context.dom().contains(d.actor_id));
        assert(vv_get(r.vv, d.actor_id) >= op.context[d.actor_id]);
    }
}

/// A local write is the same as the operation that it makes, applied to the
/// replica as it was.
pub proof fn lemma_local_is_remote(r: ReplicaView, set: Seq<char>, vs: Seq<Seq<u8>>)
    requires
        r.wf(),
        vv_get(r.vv, r.actor) < u64::MAX,
        vs.len() > 0,
    ensures
        r.ready_for(r.local_add_op(set, vs)),
        r.is_new(r.local_add_op(set, vs)),
        same_content(r.local_add(set, vs), r.apply_remote(r.local_add_op(set, vs))),
        r.store.sets.dom().contains(set) ==> same_content(
            r.local_remove(set, vs),
            r.apply_remote(r.local_remove_op(set, vs)),
        ),
{
    let dot = r.next_dot();
    let add = r.local_add_op(set, vs);
    let rem = r.local_remove_op(set, vs);
    assert(vv_update(r.vv, dot.actor_id, dot.counter) =~= vv_increment(r.vv, r.actor));
    let rows = r.store.elements(set);
    let vv_new = vv_update(r.store.vv, dot.actor_id, dot.counter);
    assert(rows_wf(rows, r.store.vv));
    lemma_rows_wf_update(rows, r.store.vv, dot.actor_id, dot.counter);
    // the add
    lemma_apply_content(r, add);
    lemma_add_all(rows, vs, dot, vv_new);
    let la = r.local_add(set, vs);
    let ra = r.apply_remote(add);
    assert(la.store.sets.dom() =~= ra.store.sets.dom());
    assert forall|name: Seq<char>, v: Seq<u8>|
        #![trigger dots_at(la.store, name, v)]
        #![trigger dots_at(ra.store, name, v)]
        dots_at(la.store, name, v) == dots_at(ra.store, name, v) by {
        if name == set {
            assert(la.store.elements(set) == add_all(rows, vs, dot));
            if vs.contains(v) {
                lemma_support_member(rows, r.store.vv, v);
                lemma_listed_all_gone(rows, vs, dot, r.store.vv, v);
                assert(keep_dots(support(rows, v), add.removed_dots).insert(
                    dot.actor_id,
                    dot.counter,
                ) =~= single_dot(dot));
            }
        } else {
            assert(la.store.elements(name) == r.store.elements(name));
        }
    }
    // the remove
    if r.store.sets.dom().contains(set) {
        lemma_apply_content(r, rem);
        lemma_remove_all(rows, vs, vv_new);
        let lr = r.local_remove(set, vs);
        let rr = r.apply_remote(rem);
        assert(lr.store.sets.dom() =~= rr.store.sets.dom());
        assert forall|name: Seq<char>, v: Seq<u8>|
            #![trigger dots_at(lr.store, name, v)]
            #![trigger dots_at(rr.store, name, v)]
            dots_at(lr.store, name, v) == dots_at(rr.store, name, v) by {
            if name == set {
                assert(lr.store.elements(set) == remove_all(rows, vs));
                if vs.contains(v) {
                    lemma_support_member(rows, r.store.vv, v);
                    lemma_removed_all_gone(rows, vs, r.store.vv, v);
                    assert(keep_dots(support(rows, v), rem.removed_dots) =~= Map::<
                        ActorId,
                        u64,
                    >::empty());
                }
            } else {
                assert(lr.store.elements(name) == r.store.elements(name));
            }
        }
    }
}

/// A local add lists every dot that supported a value that it names.
pub proof fn lemma_listed_all_gone(
    rows: Seq<ElementView>,
    vs: Seq<Seq<u8>>,
    dot: Dot,
    vv: Map<ActorId, u64>,
    v: Seq<u8>,
)
    requires
        rows_wf(rows, vv),
        vs.contains(v),
    ensures
        forall|a: ActorId|
            #[trigger] support(rows, v).dom().contains(a) ==> add_displaced(rows, vs, dot).contains(
                Dot { actor_id: a, counter: support(rows, v)[a] },
            ),
    decreases vs.len(),
{
    let p = vs.drop_last();
    let head = add_displaced(rows, p, dot);
    let mid = add_all(rows, p, dot);
    let tail = crate::store_model::displaced_one(mid, vs.last());
    let all = add_displaced(rows, vs, dot);
    crate::store_lemmas::lemma_contains_last(vs, v);
    assert forall|a: ActorId| #[trigger] support(rows, v).dom().contains(a) implies all.contains(
        Dot { actor_id: a, counter: support(rows, v)[a] },
    ) by {
        let d = Dot { actor_id: a, counter: support(rows, v)[a] };
        if p.contains(v) {
            lemma_listed_all_gone(rows, p, dot, vv, v);
            let i = choose|i: int| 0 <= i < head.len() && head[i] == d;
            assert(all[i] == d);
        } else {
            let vv_new = vv_update(vv, dot.actor_id, dot.counter);
            lemma_rows_wf_update(rows, vv, dot.actor_id, dot.counter);
            lemma_add_all(rows, p, dot, vv_new);
            assert(support(mid, v) == support(rows, v));
            lemma_support_member(rows, vv, v);
            let m = support(rows, v);
            lemma_sorted_dots_of(m);
            crate::version_vector::lemma_last_index_of(sorted_dots(m), a);
            let k = crate::version_vector::last_index_of(sorted_dots(m), a);
            assert(tail[k] == d);
            assert(all[head.len() + k] == d);
        }
    }
}

/// A local remove lists every dot that supported a value that it names.
pub proof fn lemma_removed_all_gone(
    rows: Seq<ElementView>,
    vs: Seq<Seq<u8>>,
    vv: Map<ActorId, u64>,
    v: Seq<u8>,
)
    requires
        rows_wf(rows, vv),
        vs.contains(v),
    ensures
        forall|a: ActorId|
            #[trigger] support(rows, v).dom().contains(a) ==> remove_displaced(rows, vs).contains(
                Dot { actor_id: a, counter: support(rows, v)[a] },
            ),
    decreases vs.len(),
{
    let p = vs.drop_last();
    let head = remove_displaced(rows, p);
    let mid = remove_all(rows, p);
    let tail = crate::store_model::displaced_one(mid, vs.last());
    let all = remove_displaced(rows, vs);
    crate::store_lemmas::lemma_contains_last(vs, v);
    assert forall|a: ActorId| #[trigger] support(rows, v).dom().contains(a) implies all.contains(
        Dot { actor_id: a, counter: support(rows, v)[a] },
    ) by {
        let d = Dot { actor_id: a, counter: support(rows, v)[a] };
        if p.contains(v) {
            lemma_removed_all_gone(rows, p, vv, v);
            let i = choose|i: int| 0 <= i < head.len() && head[i] == d;
            assert(all[i] == d);
        } else {
            lemma_remove_all(rows, p, vv);
            assert(support(mid, v) == support(rows, v));
            lemma_support_member(rows, vv, v);
            let m = support(rows, v);
            lemma_sorted_dots_of(m);
            crate::version_vector::lemma_last_index_of(sorted_dots(m), a);
            let k = crate::version_vector::last_index_of(sorted_dots(m), a);
            assert(tail[k] == d);
            assert(all[head.len() + k] == d);
        }
    }
}

/// Add wins: where one replica adds a value and another, which has not
/// seen that add, removes it, the value is in the set at both once each has
/// been handed the other's operation, and at both the dot of the add alone
/// supports it.
pub proof fn lemma_add_wins(a: ReplicaView, b: ReplicaView, set: Seq<char>, x: Seq<u8>)
    requires
        a.wf(),
        b.wf(),
        a.actor != b.actor,
        vv_get(b.vv, a.actor) < a.next_dot().counter,
        b.local_remove(set, seq![x]).ready_for(a.local_add_op(set, seq![x])),
    ensures
        a.local_add(set, seq![x]).apply_remote(b.local_remove_op(set, seq![x])).store.members(
            set,
        ).contains(x),
        dots_at(
            a.local_add(set, seq![x]).apply_remote(b.local_remove_op(set, seq![x])).store,
            set,
            x,
        ) == single_dot(a.next_dot()),
        b.local_remove(set, seq![x]).is_new(a.local_add_op(set, seq![x])),
        b.local_remove(set, seq![x]).apply_remote(a.local_add_op(set, seq![x])).store.members(
            set,
        ).contains(x),
        dots_at(
            b.local_remove(set, seq![x]).apply_remote(a.local_add_op(set, seq![x])).store,
            set,
            x,
        ) == single_dot(a.next_dot()),
{
    let vs = seq![x];
    assert(vs[0] == x);
    assert(vs.contains(x));
    let added = a.local_add(set, vs);
    let removed_at = b.local_remove(set, vs);
    let op_a = a.local_add_op(set, vs);
    let op_b = b.local_remove_op(set, vs);
    let da = a.next_dot();
    let dr = b.next_dot();
    lemma_operations_keep_wf(a.store, set, vs, Seq::empty(), da);
    lemma_operations_keep_wf(b.store, set, vs, Seq::empty(), dr);
    lemma_local_ops_causal(b, set, vs);
    lemma_nonempty(single_dot(da), da.actor_id);
    // at the replica that added
    crate::laws::lemma_add_then_member(a.store, set, vs, da, x);
    let added_then = added.apply_remote(op_b);
    if added.ready_for(op_b) && added.is_new(op_b) {
        lemma_store_after(added, op_b);
        lemma_operations_keep_wf(added.store, set, vs, op_b.removed_dots, dr);
        assert(touches(op_b, set, x));
        assert(dots_at(added.store, set, x) == single_dot(da));
        assert(!op_b.removed_dots.contains(da)) by {
            if op_b.removed_dots.contains(da) {
                let i = choose|i: int| 0 <= i < op_b.removed_dots.len() && op_b.removed_dots[i] == da;
                assert(vv_get(op_b.context, da.actor_id) >= da.counter);
            }
        }
        assert(keep_dots(single_dot(da), op_b.removed_dots) =~= single_dot(da));
        lemma_member_dots(added_then.store, set, x);
    }
    // at the replica that removed
    assert(vv_get(removed_at.vv, a.actor) == vv_get(b.vv, a.actor));
    let removed_then = removed_at.apply_remote(op_a);
    crate::laws::lemma_remove_then_absent(b.store, set, vs, dr, x);
    lemma_member_dots(removed_at.store, set, x);
    lemma_store_after(removed_at, op_a);
    lemma_operations_keep_wf(removed_at.store, set, vs, op_a.removed_dots, da);
    assert(touches(op_a, set, x));
    let none = Map::<ActorId, u64>::empty();
    assert(dots_at(removed_at.store, set, x) == none);
    assert(keep_dots(none, op_a.removed_dots).insert(da.actor_id, da.counter) =~= single_dot(da));
    lemma_member_dots(removed_then.store, set, x);
}

/// Taking away the dots that one operation lists and putting its dot
/// commutes with doing so for another operation, where the dots are of
/// different actors and neither operation lists the other's dot.
pub proof fn lemma_dots_after_commute(m: Map<ActorId, u64>, a: OpView, b: OpView)
    requires
        a.dot.actor_id != b.dot.actor_id,
        !a.removed_dots.contains(b.dot),
        !b.removed_dots.contains(a.dot),
    ensures
        dots_after(dots_after(m, a), b) == dots_after(dots_after(m, b), a),
{
    assert(dots_after(dots_after(m, a), b) =~= dots_after(dots_after(m, b), a));
}

/// Operations of different actors that a replica is ready for commute: in
/// either order both are applied, and the replica holds the same
/// afterwards.
pub proof fn lemma_concurrent_commute(r: ReplicaView, a: OpView, b: OpView)
    requires
        r.wf(),
        causal(a),
        causal(b),
        a.dot.actor_id != b.dot.actor_id,
        r.ready_for(a),
        r.is_new(a),
        r.ready_for(b),
        r.is_new(b),
    ensures
        r.apply_remote(a).ready_for(b),
        r.apply_remote(a).is_new(b),
        r.apply_remote(b).ready_for(a),
        r.apply_remote(b).is_new(a),
        same_content(r.apply_remote(a).apply_remote(b), r.apply_remote(b).apply_remote(a)),
{
    let ra = r.apply_remote(a);
    let rb = r.apply_remote(b);
    lemma_apply_content(r, a);
    lemma_apply_content(r, b);
    lemma_remote_step(r, a);
    lemma_remote_step(r, b);
    assert(ra.ready_for(b)) by {
        assert forall|x: ActorId| #[trigger] b.context.dom().contains(x) implies vv_get(ra.vv, x)
            >= b.context[x] by {
            assert(vv_get(r.vv, x) >= b.context[x]);
        }
    }
    assert(rb.ready_for(a)) by {
        assert forall|x: ActorId| #[trigger] a.context.dom().contains(x) implies vv_get(rb.vv, x)
            >= a.context[x] by {
            assert(vv_get(r.vv, x) >= a.context[x]);
        }
    }
    lemma_apply_content(ra, b);
    lemma_apply_content(rb, a);
    lemma_unseen_not_listed(r, a, b.dot);
    lemma_unseen_not_listed(r, b, a.dot);
    let ab = ra.apply_remote(b);
    let ba = rb.apply_remote(a);
    assert(ab.vv =~= ba.vv);
    assert(ab.store.vv =~= ba.store.vv);
    assert(ab.store.sets.dom() =~= ba.store.sets.dom());
    assert forall|set: Seq<char>, v: Seq<u8>|
        #![trigger dots_at(ab.store, set, v)]
        #![trigger dots_at(ba.store, set, v)]
        dots_at(ab.store, set, v) == dots_at(ba.store, set, v) by {
        let m = dots_at(r.store, set, v);
        assert(dots_at(ra.store, set, v) == (if touches(a, set, v) {
            dots_after(m, a)
        } else {
            m
        }));
        assert(dots_at(rb.store, set, v) == (if touches(b, set, v) {
            dots_after(m, b)
        } else {
            m
        }));
        lemma_dots_after_commute(m, a, b);
    }
}

// ----- sequences of operations -----
/// The replica after the operations have been handed to it one after the
/// other.
pub open spec fn run(r: ReplicaView, ops: Seq<OpView>) -> ReplicaView
    decreases ops.len(),
{
    if ops.len() == 0 {
        r
    } else {
        run(r.apply_remote(ops[0]), ops.drop_first())
    }
}

/// Handing one more operation over at the end is applying it to what the
/// others came to.
pub proof fn lemma_run_push(r: ReplicaView, ops: Seq<OpView>, op: OpView)
    ensures
        run(r, ops.push(op)) == run(r, ops).apply_remote(op),
    decreases ops.len(),
{
    let all = ops.push(op);
    if ops.len() == 0 {
        assert(all.drop_first() =~= Seq::<OpView>::empty());
        assert(run(r.apply_remote(op), all.drop_first()) == r.apply_remote(op));
    } else {
        assert(all.drop_first() =~= ops.drop_first().push(op));
        lemma_run_push(r.apply_remote(ops[0]), ops.drop_first(), op);
    }
}

/// Each of the operations is applied when its turn comes: the replica is
/// then ready for it and has not seen its dot.
pub open spec fn all_applied(r: ReplicaView, ops: Seq<OpView>) -> bool
    decreases ops.len(),
{
    if ops.len() == 0 {
        true
    } else {
        r.ready_for(ops[0]) && r.is_new(ops[0]) && all_applied(
            r.apply_remote(ops[0]),
            ops.drop_first(),
        )
    }
}

pub open spec fn all_causal(ops: Seq<OpView>) -> bool {
    forall|i: int| 0 <= i < ops.len() ==> causal(#[trigger] ops[i])
}

/// Replicas that hold the same hold the same after the same operation, and
/// are ready for the same operations.
pub proof fn lemma_same_step(first: ReplicaView, second: ReplicaView, op: OpView)
    requires
        first.wf(),
        second.wf(),
        same_content(first, second),
    ensures
        first.ready_for(op) == second.ready_for(op),
        first.is_new(op) == second.is_new(op),
        same_content(first.apply_remote(op), second.apply_remote(op)),
{
    if first.ready_for(op) && first.is_new(op) {
        lemma_apply_content(first, op);
        lemma_apply_content(second, op);
        let after_first = first.apply_remote(op);
        let after_second = second.apply_remote(op);
        assert forall|set: Seq<char>, v: Seq<u8>|
            #![trigger dots_at(after_first.store, set, v)]
            #![trigger dots_at(after_second.store, set, v)]
            dots_at(after_first.store, set, v) == dots_at(after_second.store, set, v) by {
            assert(dots_at(first.store, set, v) == dots_at(second.store, set, v));
        }
    }
}

/// Replicas that hold the same hold the same after the same operations.
pub proof fn lemma_same_run(first: ReplicaView, second: ReplicaView, ops: Seq<OpView>)
    requires
        first.wf(),
        second.wf(),
        same_content(first, second),
    ensures
        all_applied(first, ops) == all_applied(second, ops),
        same_content(run(first, ops), run(second, ops)),
        run(first, ops).wf(),
        run(second, ops).wf(),
    decreases ops.len(),
{
    if ops.len() > 0 {
        lemma_same_step(first, second, ops[0]);
        lemma_remote_step(first, ops[0]);
        lemma_remote_step(second, ops[0]);
        lemma_same_run(first.apply_remote(ops[0]), second.apply_remote(ops[0]), ops.drop_first());
    }
}

/// A replica has seen the dot of none of the operations that are applied
/// to it in turn.
pub proof fn lemma_applied_are_new(r: ReplicaView, ops: Seq<OpView>, j: int)
    requires
        r.wf(),
        all_applied(r, ops),
        0 <= j < ops.len(),
    ensures
        ops[j].dot.counter > vv_get(r.vv, ops[j].dot.actor_id),
        forall|i: int|
            0 <= i < j && (#[trigger] ops[i]).dot.actor_id == ops[j].dot.actor_id ==> ops[i].dot.counter
                < ops[j].dot.counter,
    decreases ops.len(),
{
    if j > 0 {
        let t = r.apply_remote(ops[0]);
        let rest = ops.drop_first();
        lemma_remote_step(r, ops[0]);
        lemma_applied_are_new(t, rest, j - 1);
        assert(rest[j - 1] == ops[j]);
        let a = ops[j].dot.actor_id;
        if r.vv.dom().contains(a) {
            assert(vv_get(t.vv, a) >= r.vv[a]);
        }
        assert forall|i: int| 0 <= i < j && (#[trigger] ops[i]).dot.actor_id == a implies ops[i].dot.counter
            < ops[j].dot.counter by {
            if i > 0 {
                assert(rest[i - 1] == ops[i]);
            } else {
                assert(vv_get(t.vv, a) >= ops[0].dot.counter);
            }
        }
    }
}

/// An operation that the replica is ready for from the start, and before
/// which no operation of its actor stands, can be applied first: the others
/// are still applied in their turn, and the replica holds the same in the
/// end.
pub proof fn lemma_move_to_front(r: ReplicaView, ops: Seq<OpView>, k: int)
    requires
        r.wf(),
        all_causal(ops),
        all_applied(r, ops),
        0 <= k < ops.len(),
        r.ready_for(ops[k]),
        forall|j: int| 0 <= j < k ==> (#[trigger] ops[j]).dot.actor_id != ops[k].dot.actor_id,
    ensures
        all_applied(r, seq![ops[k]] + ops.remove(k)),
        same_content(run(r, seq![ops[k]] + ops.remove(k)), run(r, ops)),
        run(r, ops).wf(),
        run(r, seq![ops[k]] + ops.remove(k)).wf(),
    decreases k,
{
    let a = ops[k];
    let moved = seq![a] + ops.remove(k);
    if k == 0 {
        assert(moved =~= ops);
        lemma_same_run(r, r, ops);
    } else {
        let b = ops[0];
        let rest = ops.drop_first();
        let rb = r.apply_remote(b);
        lemma_remote_step(r, b);
        assert(rest[k - 1] == a);
        assert(all_causal(rest)) by {
            assert forall|i: int| 0 <= i < rest.len() implies causal(#[trigger] rest[i]) by {
                assert(rest[i] == ops[i + 1]);
            }
        }
        assert(rb.ready_for(a)) by {
            assert forall|x: ActorId| #[trigger] a.context.dom().contains(x) implies vv_get(rb.vv, x)
                >= a.context[x] by {
                assert(vv_get(r.vv, x) >= a.context[x]);
            }
        }
        assert forall|j: int| 0 <= j < k - 1 implies (#[trigger] rest[j]).dot.actor_id
            != rest[k - 1].dot.actor_id by {
            assert(rest[j] == ops[j + 1]);
        }
        lemma_move_to_front(rb, rest, k - 1);
        let q = rest.remove(k - 1);
        let mid = seq![a] + q;
        // a is new at r, for it is new after b
        assert(mid[0] == a);
        assert(mid.drop_first() =~= q);
        assert(rb.is_new(a));
        assert(r.is_new(a)) by {
            if r.vv.dom().contains(a.dot.actor_id) {
                assert(vv_get(rb.vv, a.dot.actor_id) >= r.vv[a.dot.actor_id]);
            }
        }
        assert(causal(a) && causal(b));
        assert(b.dot.actor_id != a.dot.actor_id);
        lemma_concurrent_commute(r, a, b);
        let ra = r.apply_remote(a);
        let rab = ra.apply_remote(b);
        let rba = rb.apply_remote(a);
        lemma_remote_step(r, a);
        lemma_remote_step(ra, b);
        lemma_remote_step(rb, a);
        lemma_same_run(rab, rba, q);
        // the sequence with a in front
        assert(moved[0] == a);
        assert(moved.drop_first() =~= seq![b] + q);
        assert((seq![b] + q)[0] == b);
        assert((seq![b] + q).drop_first() =~= q);
        let bq = seq![b] + q;
        assert(moved.drop_first() == bq);
        assert(bq.drop_first() == q);
        assert(all_applied(rb, mid));
        assert(all_applied(rba, mid.drop_first()));
        assert(all_applied(rba, q));
        assert(all_applied(rab, q));
        assert(all_applied(ra, bq));
        assert(all_applied(r, moved));
        assert(run(ra, bq) == run(rab, q));
        assert(run(r, moved) == run(ra, bq));
        assert(run(rb, mid) == run(rba, mid.drop_first()));
        assert(run(r, ops) == run(rb, rest));
    }
}

/// Convergence: replicas that started from the same state and have applied
/// the same operations, each in an order in which every operation was
/// applied when its turn came, hold the same; so they have the same members
/// in every set.
pub proof fn lemma_convergence(r: ReplicaView, order_a: Seq<OpView>, order_b: Seq<OpView>)
    requires
        r.wf(),
        all_causal(order_a),
        order_a.to_multiset() == order_b.to_multiset(),
        all_applied(r, order_a),
        all_applied(r, order_b),
    ensures
        same_content(run(r, order_a), run(r, order_b)),
        run(r, order_a).wf(),
        run(r, order_b).wf(),
        forall|set: Seq<char>| #[trigger]
            run(r, order_a).store.members(set) == run(r, order_b).store.members(set),
    decreases order_a.len(),
{
    order_a.to_multiset_ensures();
    order_b.to_multiset_ensures();
    if order_a.len() == 0 {
        assert(order_b.len() == 0);
        lemma_same_run(r, r, order_a);
    } else {
        let a = order_b[0];
        assert(order_b.contains(a));
        assert(order_a.to_multiset().count(a) > 0);
        assert(order_a.contains(a));
        let k = choose|k: int| 0 <= k < order_a.len() && order_a[k] == a;
        // no operation of a's actor stands before a in the first order
        assert forall|j: int| 0 <= j < k implies (#[trigger] order_a[j]).dot.actor_id
            != a.dot.actor_id by {
            if order_a[j].dot.actor_id == a.dot.actor_id {
                lemma_applied_are_new(r, order_a, k);
                assert(order_a[j].dot.counter < a.dot.counter);
                assert(order_a.contains(order_a[j]));
                assert(order_b.to_multiset().count(order_a[j]) > 0);
                assert(order_b.contains(order_a[j]));
                let i = choose|i: int| 0 <= i < order_b.len() && order_b[i] == order_a[j];
                if i > 0 {
                    lemma_applied_are_new(r, order_b, i);
                    assert(order_b[0].dot.counter < order_b[i].dot.counter);
                }
            }
        }
        lemma_move_to_front(r, order_a, k);
        let rest_a = order_a.remove(k);
        let rest_b = order_b.drop_first();
        let moved = seq![a] + rest_a;
        let ra = r.apply_remote(a);
        lemma_remote_step(r, a);
        assert(moved[0] == a);
        assert(moved.drop_first() =~= rest_a);
        assert(rest_b =~= order_b.remove(0));
        assert(rest_a.to_multiset() =~= rest_b.to_multiset());
        assert(all_causal(rest_a)) by {
            assert forall|i: int| 0 <= i < rest_a.len() implies causal(#[trigger] rest_a[i]) by {
                assert(rest_a[i] == order_a[if i < k { i } else { i + 1 }]);
            }
        }
        lemma_convergence(ra, rest_a, rest_b);
        assert(run(r, moved) == run(ra, rest_a));
        assert(run(r, order_b) == run(ra, rest_b));
    }
    assert forall|set: Seq<char>| #[trigger]
        run(r, order_a).store.members(set) == run(r, order_b).store.members(set) by {
        lemma_same_members(run(r, order_a), run(r, order_b), set);
    }
}

} // verus!
