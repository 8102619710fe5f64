//! What the storage operations do to the support of each value, and that
//! they keep the invariants of the store.

use crate::store_model::{
    add_all, add_one, distinct_values, dots_covered, dots_wf, keep_dots, lemma_distinct_index,
    lemma_value_absent, lemma_value_index, remove_all, remove_one, replicate_add_all,
    replicate_add_one, replicate_remove_all, replicate_remove_one, rows_wf, single_dot, support,
    value_index, values, ElementView, StoreView,
};
use crate::types::{ActorId, Dot};
use crate::version_vector::{
    has_order, lemma_has_order_empty, lemma_has_order_insert, lemma_has_order_keep,
    lemma_has_order_single, vv_get, vv_update,
};
use vstd::prelude::*;

verus! {

/// A map with an entry is not the empty map.
pub proof fn lemma_nonempty(m: Map<ActorId, u64>, a: ActorId)
    requires
        m.dom().contains(a),
    ensures
        m != Map::<ActorId, u64>::empty(),
{
    assert(!Map::<ActorId, u64>::empty().dom().contains(a));
}

/// Rows that agree in their values give each value the same place.
pub proof fn lemma_same_values(a: Seq<ElementView>, b: Seq<ElementView>, v: Seq<u8>)
    requires
        a.len() == b.len(),
        forall|k: int| 0 <= k < a.len() ==> (#[trigger] a[k]).value == b[k].value,
    ensures
        value_index(a, v) == value_index(b, v),
    decreases a.len(),
{
    if a.len() > 0 {
        assert(a[a.len() - 1].value == b[a.len() - 1].value);
        let ta = a.drop_last();
        let tb = b.drop_last();
        assert forall|k: int| 0 <= k < ta.len() implies (#[trigger] ta[k]).value == tb[k].value by {
            assert(ta[k] == a[k]);
            assert(a[k].value == b[k].value);
        }
        lemma_same_values(ta, tb, v);
    }
}

/// Dots within a vector are within a vector that has learned more.
pub proof fn lemma_covered_update(dots: Map<ActorId, u64>, vv: Map<ActorId, u64>, a: ActorId, c: u64)
    requires
        dots_covered(dots, vv),
    ensures
        dots_covered(dots, vv_update(vv, a, c)),
{
    assert forall|b: ActorId| #[trigger] dots.dom().contains(b) implies vv_get(vv_update(vv, a, c), b)
        >= dots[b] by {
        assert(vv_get(vv, b) >= dots[b]);
    }
}

pub proof fn lemma_rows_wf_update(elems: Seq<ElementView>, vv: Map<ActorId, u64>, a: ActorId, c: u64)
    requires
        rows_wf(elems, vv),
    ensures
        rows_wf(elems, vv_update(vv, a, c)),
{
    assert forall|i: int| 0 <= i < elems.len() implies dots_wf(
        (#[trigger] elems[i]).dots,
        vv_update(vv, a, c),
    ) by {
        lemma_covered_update(elems[i].dots, vv, a, c);
    }
}

/// Rows whose values are those of rows with distinct values, place by
/// place, have distinct values and give each value the support of its place.
proof fn lemma_replaced_row(elems: Seq<ElementView>, i: int, row: ElementView)
    requires
        distinct_values(elems),
        0 <= i < elems.len(),
        row.value == elems[i].value,
    ensures
        distinct_values(elems.update(i, row)),
        forall|w: Seq<u8>|
            #![trigger support(elems.update(i, row), w)]
            support(elems.update(i, row), w) == (if w == row.value {
                row.dots
            } else {
                support(elems, w)
            }),
        forall|w: Seq<u8>|
            #![trigger value_index(elems.update(i, row), w)]
            value_index(elems.update(i, row), w) == value_index(elems, w),
        values(elems.update(i, row)) == values(elems),
{
    let r = elems.update(i, row);
    assert forall|p: int, q: int| 0 <= p < q < r.len() implies (#[trigger] r[p]).value != (
    #[trigger] r[q]).value by {
        assert(r[p].value == elems[p].value);
        assert(r[q].value == elems[q].value);
    }
    assert forall|w: Seq<u8>|
        #![trigger value_index(r, w)]
        value_index(r, w) == value_index(elems, w) by {
        lemma_same_values(r, elems, w);
    }
    assert forall|w: Seq<u8>| #![trigger support(r, w)] support(r, w) == (if w == row.value {
        row.dots
    } else {
        support(elems, w)
    }) by {
        lemma_value_index(elems, w);
        lemma_distinct_index(elems, i);
    }
    assert(values(r) =~= values(elems));
}

/// A row put at the end of rows that do not hold its value.
proof fn lemma_pushed_row(elems: Seq<ElementView>, row: ElementView)
    requires
        distinct_values(elems),
        value_index(elems, row.value) < 0,
    ensures
        distinct_values(elems.push(row)),
        forall|w: Seq<u8>|
            #![trigger support(elems.push(row), w)]
            support(elems.push(row), w) == (if w == row.value {
                row.dots
            } else {
                support(elems, w)
            }),
        forall|w: Seq<u8>|
            #![trigger value_index(elems.push(row), w)]
            value_index(elems.push(row), w) == (if w == row.value {
                elems.len() as int
            } else {
                value_index(elems, w)
            }),
        values(elems.push(row)) == values(elems).push(row.value),
{
    let r = elems.push(row);
    assert(r.drop_last() =~= elems);
    lemma_value_index(elems, row.value);
    assert forall|p: int, q: int| 0 <= p < q < r.len() implies (#[trigger] r[p]).value != (
    #[trigger] r[q]).value by {
        if q == elems.len() {
            assert(r[p] == elems[p]);
        } else {
            assert(r[p] == elems[p]);
            assert(r[q] == elems[q]);
        }
    }
    assert forall|w: Seq<u8>| #![trigger support(r, w)] support(r, w) == (if w == row.value {
        row.dots
    } else {
        support(elems, w)
    }) by {
        lemma_value_index(elems, w);
    }
    assert(values(r) =~= values(elems).push(row.value));
}

/// Rows with distinct values without one of them.
proof fn lemma_removed_row(elems: Seq<ElementView>, i: int)
    requires
        distinct_values(elems),
        0 <= i < elems.len(),
    ensures
        distinct_values(elems.remove(i)),
        forall|w: Seq<u8>|
            #![trigger support(elems.remove(i), w)]
            support(elems.remove(i), w) == (if w == elems[i].value {
                Map::<ActorId, u64>::empty()
            } else {
                support(elems, w)
            }),
        forall|k: int| 0 <= k < elems.remove(i).len() ==> #[trigger] elems.remove(i)[k] == elems[if k < i {
            k
        } else {
            k + 1
        }],
{
    let r = elems.remove(i);
    assert forall|p: int, q: int| 0 <= p < q < r.len() implies (#[trigger] r[p]).value != (
    #[trigger] r[q]).value by {
        let sp = if p < i { p } else { p + 1 };
        let sq = if q < i { q } else { q + 1 };
        assert(r[p] == elems[sp]);
        assert(r[q] == elems[sq]);
    }
    assert forall|w: Seq<u8>| #![trigger support(r, w)] support(r, w) == (if w == elems[i].value {
        Map::<ActorId, u64>::empty()
    } else {
        support(elems, w)
    }) by {
        lemma_value_index(elems, w);
        lemma_distinct_index(elems, i);
        let j = value_index(elems, w);
        if w == elems[i].value || j < 0 {
            assert forall|k: int| 0 <= k < r.len() implies (#[trigger] r[k]).value != w by {
                let sk = if k < i { k } else { k + 1 };
                assert(r[k] == elems[sk]);
                if w == elems[i].value {
                    if sk < i {
                        assert(elems[sk].value != elems[i].value);
                    } else {
                        assert(elems[i].value != elems[sk].value);
                    }
                } else {
                    lemma_value_absent_at(elems, w, sk);
                }
            }
            lemma_value_absent(r, w);
        } else {
            let rj = if j < i { j } else { j - 1 };
            assert(r[rj] == elems[j]);
            lemma_distinct_index(r, rj);
        }
    }
}

/// A value without a place stands in no row.
pub proof fn lemma_value_absent_at(elems: Seq<ElementView>, v: Seq<u8>, k: int)
    requires
        value_index(elems, v) < 0,
        0 <= k < elems.len(),
    ensures
        elems[k].value != v,
{
    lemma_value_index(elems, v);
}

// ----- one step of each operation -----
pub proof fn lemma_add_one(elems: Seq<ElementView>, v: Seq<u8>, dot: Dot, vv: Map<ActorId, u64>)
    requires
        rows_wf(elems, vv),
        vv_get(vv, dot.actor_id) >= dot.counter,
    ensures
        rows_wf(add_one(elems, v, dot), vv),
        forall|w: Seq<u8>|
            #![trigger support(add_one(elems, v, dot), w)]
            support(add_one(elems, v, dot), w) == (if w == v {
                single_dot(dot)
            } else {
                support(elems, w)
            }),
        values(add_one(elems, v, dot)) == (if value_index(elems, v) >= 0 {
            values(elems)
        } else {
            values(elems).push(v)
        }),
{
    let i = value_index(elems, v);
    let row = ElementView { value: v, dots: single_dot(dot) };
    let r = add_one(elems, v, dot);
    lemma_value_index(elems, v);
    lemma_nonempty(single_dot(dot), dot.actor_id);
    lemma_has_order_single(dot);
    assert(dots_covered(single_dot(dot), vv));
    if i >= 0 {
        lemma_replaced_row(elems, i, row);
        assert forall|k: int| 0 <= k < r.len() implies dots_wf((#[trigger] r[k]).dots, vv) by {
            if k != i {
                assert(r[k] == elems[k]);
            }
        }
    } else {
        lemma_pushed_row(elems, row);
        assert forall|k: int| 0 <= k < r.len() implies dots_wf((#[trigger] r[k]).dots, vv) by {
            if k < elems.len() {
                assert(r[k] == elems[k]);
            }
        }
    }
}

pub proof fn lemma_remove_one(elems: Seq<ElementView>, v: Seq<u8>, vv: Map<ActorId, u64>)
    requires
        rows_wf(elems, vv),
    ensures
        rows_wf(remove_one(elems, v), vv),
        forall|w: Seq<u8>|
            #![trigger support(remove_one(elems, v), w)]
            support(remove_one(elems, v), w) == (if w == v {
                Map::<ActorId, u64>::empty()
            } else {
                support(elems, w)
            }),
{
    let i = value_index(elems, v);
    let r = remove_one(elems, v);
    lemma_value_index(elems, v);
    if i >= 0 {
        lemma_removed_row(elems, i);
        assert forall|k: int| 0 <= k < r.len() implies dots_wf((#[trigger] r[k]).dots, vv) by {
            let sk = if k < i { k } else { k + 1 };
            assert(r[k] == elems[sk]);
        }
    }
}

/// The dots kept are among the dots there were.
pub proof fn lemma_keep_dots_covered(dots: Map<ActorId, u64>, removed: Seq<Dot>, vv: Map<ActorId, u64>)
    requires
        dots_covered(dots, vv),
    ensures
        dots_covered(keep_dots(dots, removed), vv),
{
    assert forall|a: ActorId| #[trigger] keep_dots(dots, removed).dom().contains(a) implies vv_get(vv, a)
        >= keep_dots(dots, removed)[a] by {
        assert(dots.dom().contains(a));
    }
}

pub proof fn lemma_replicate_add_one(
    elems: Seq<ElementView>,
    v: Seq<u8>,
    removed: Seq<Dot>,
    dot: Dot,
    vv: Map<ActorId, u64>,
)
    requires
        rows_wf(elems, vv),
        vv_get(vv, dot.actor_id) >= dot.counter,
    ensures
        rows_wf(replicate_add_one(elems, v, removed, dot), vv),
        forall|w: Seq<u8>|
            #![trigger support(replicate_add_one(elems, v, removed, dot), w)]
            support(replicate_add_one(elems, v, removed, dot), w) == (if w == v {
                keep_dots(support(elems, v), removed).insert(dot.actor_id, dot.counter)
            } else {
                support(elems, w)
            }),
{
    let i = value_index(elems, v);
    let r = replicate_add_one(elems, v, removed, dot);
    lemma_value_index(elems, v);
    if i >= 0 {
        let dots = keep_dots(elems[i].dots, removed).insert(dot.actor_id, dot.counter);
        let row = ElementView { value: v, dots };
        lemma_replaced_row(elems, i, row);
        lemma_nonempty(dots, dot.actor_id);
        lemma_keep_dots_covered(elems[i].dots, removed, vv);
        assert(dots_wf(elems[i].dots, vv));
        lemma_has_order_keep(elems[i].dots, removed);
        lemma_has_order_insert(keep_dots(elems[i].dots, removed), dot.actor_id, dot.counter);
        assert(dots_covered(dots, vv)) by {
            assert forall|a: ActorId| #[trigger] dots.dom().contains(a) implies vv_get(vv, a)
                >= dots[a] by {
                if a != dot.actor_id {
                    assert(keep_dots(elems[i].dots, removed).dom().contains(a));
                }
            }
        }
        assert forall|k: int| 0 <= k < r.len() implies dots_wf((#[trigger] r[k]).dots, vv) by {
            if k != i {
                assert(r[k] == elems[k]);
            }
        }
    } else {
        let row = ElementView { value: v, dots: single_dot(dot) };
        lemma_pushed_row(elems, row);
        lemma_nonempty(single_dot(dot), dot.actor_id);
        lemma_has_order_single(dot);
        assert(dots_covered(single_dot(dot), vv));
        assert(keep_dots(Map::<ActorId, u64>::empty(), removed).insert(dot.actor_id, dot.counter)
            =~= single_dot(dot));
        assert forall|k: int| 0 <= k < r.len() implies dots_wf((#[trigger] r[k]).dots, vv) by {
            if k < elems.len() {
                assert(r[k] == elems[k]);
            }
        }
    }
}

pub proof fn lemma_replicate_remove_one(
    elems: Seq<ElementView>,
    v: Seq<u8>,
    removed: Seq<Dot>,
    vv: Map<ActorId, u64>,
)
    requires
        rows_wf(elems, vv),
    ensures
        rows_wf(replicate_remove_one(elems, v, removed), vv),
        forall|w: Seq<u8>|
            #![trigger support(replicate_remove_one(elems, v, removed), w)]
            support(replicate_remove_one(elems, v, removed), w) == (if w == v {
                keep_dots(support(elems, v), removed)
            } else {
                support(elems, w)
            }),
{
    let i = value_index(elems, v);
    let r = replicate_remove_one(elems, v, removed);
    lemma_value_index(elems, v);
    if i >= 0 {
        let dots = keep_dots(elems[i].dots, removed);
        lemma_keep_dots_covered(elems[i].dots, removed, vv);
        assert(dots_wf(elems[i].dots, vv));
        lemma_has_order_keep(elems[i].dots, removed);
        if dots == Map::<ActorId, u64>::empty() {
            lemma_removed_row(elems, i);
            assert forall|k: int| 0 <= k < r.len() implies dots_wf((#[trigger] r[k]).dots, vv) by {
                let sk = if k < i { k } else { k + 1 };
                assert(r[k] == elems[sk]);
            }
        } else {
            let row = ElementView { value: v, dots };
            lemma_replaced_row(elems, i, row);
            assert forall|k: int| 0 <= k < r.len() implies dots_wf((#[trigger] r[k]).dots, vv) by {
                if k != i {
                    assert(r[k] == elems[k]);
                }
            }
        }
    } else {
        assert(keep_dots(Map::<ActorId, u64>::empty(), removed) =~= Map::<ActorId, u64>::empty());
    }
}

// ----- the operations on several values -----
/// Whether `w` is among `vs` with one more value at the end.
pub proof fn lemma_contains_last(vs: Seq<Seq<u8>>, w: Seq<u8>)
    requires
        vs.len() > 0,
    ensures
        vs.contains(w) == (w == vs.last() || vs.drop_last().contains(w)),
{
    let p = vs.drop_last();
    if vs.contains(w) {
        let i = choose|i: int| 0 <= i < vs.len() && vs[i] == w;
        if i < vs.len() - 1 {
            assert(p[i] == w);
        }
    }
    if p.contains(w) {
        let i = choose|i: int| 0 <= i < p.len() && p[i] == w;
        assert(vs[i] == w);
    }
    if w == vs.last() {
        assert(vs[vs.len() - 1] == w);
    }
}

/// A local add leaves each value that it names with the one new dot, and
/// every other value as it was.
pub proof fn lemma_add_all(elems: Seq<ElementView>, vs: Seq<Seq<u8>>, dot: Dot, vv: Map<ActorId, u64>)
    requires
        rows_wf(elems, vv),
        vv_get(vv, dot.actor_id) >= dot.counter,
    ensures
        rows_wf(add_all(elems, vs, dot), vv),
        forall|w: Seq<u8>|
            #![trigger support(add_all(elems, vs, dot), w)]
            support(add_all(elems, vs, dot), w) == (if vs.contains(w) {
                single_dot(dot)
            } else {
                support(elems, w)
            }),
    decreases vs.len(),
{
    if vs.len() > 0 {
        let p = vs.drop_last();
        let mid = add_all(elems, p, dot);
        lemma_add_all(elems, p, dot, vv);
        lemma_add_one(mid, vs.last(), dot, vv);
        assert forall|w: Seq<u8>|
            #![trigger support(add_all(elems, vs, dot), w)]
            support(add_all(elems, vs, dot), w) == (if vs.contains(w) {
                single_dot(dot)
            } else {
                support(elems, w)
            }) by {
            lemma_contains_last(vs, w);
            assert(support(add_one(mid, vs.last(), dot), w) == (if w == vs.last() {
                single_dot(dot)
            } else {
                support(mid, w)
            }));
        }
    }
}

/// A local remove leaves each value that it names without support, and
/// every other value as it was.
pub proof fn lemma_remove_all(elems: Seq<ElementView>, vs: Seq<Seq<u8>>, vv: Map<ActorId, u64>)
    requires
        rows_wf(elems, vv),
    ensures
        rows_wf(remove_all(elems, vs), vv),
        forall|w: Seq<u8>|
            #![trigger support(remove_all(elems, vs), w)]
            support(remove_all(elems, vs), w) == (if vs.contains(w) {
                Map::<ActorId, u64>::empty()
            } else {
                support(elems, w)
            }),
    decreases vs.len(),
{
    if vs.len() > 0 {
        let p = vs.drop_last();
        let mid = remove_all(elems, p);
        lemma_remove_all(elems, p, vv);
        lemma_remove_one(mid, vs.last(), vv);
        assert forall|w: Seq<u8>|
            #![trigger support(remove_all(elems, vs), w)]
            support(remove_all(elems, vs), w) == (if vs.contains(w) {
                Map::<ActorId, u64>::empty()
            } else {
                support(elems, w)
            }) by {
            lemma_contains_last(vs, w);
            assert(support(remove_one(mid, vs.last()), w) == (if w == vs.last() {
                Map::<ActorId, u64>::empty()
            } else {
                support(mid, w)
            }));
        }
    }
}

/// Taking the listed dots away twice is taking them away once.
pub proof fn lemma_keep_dots_twice(dots: Map<ActorId, u64>, removed: Seq<Dot>)
    ensures
        keep_dots(keep_dots(dots, removed), removed) == keep_dots(dots, removed),
{
    assert(keep_dots(keep_dots(dots, removed), removed) =~= keep_dots(dots, removed));
}

/// Taking the listed dots away and putting the new dot, twice, is doing so
/// once.
pub proof fn lemma_keep_insert_twice(dots: Map<ActorId, u64>, removed: Seq<Dot>, dot: Dot)
    ensures
        keep_dots(keep_dots(dots, removed).insert(dot.actor_id, dot.counter), removed).insert(
            dot.actor_id,
            dot.counter,
        ) == keep_dots(dots, removed).insert(dot.actor_id, dot.counter),
{
    let once = keep_dots(dots, removed).insert(dot.actor_id, dot.counter);
    assert(keep_dots(once, removed).insert(dot.actor_id, dot.counter) =~= once);
}

/// An add made elsewhere leaves each value that it names with the dots that
/// the add did not displace and with the add's dot, and every other value as
/// it was.
pub proof fn lemma_replicate_add_all(
    elems: Seq<ElementView>,
    vs: Seq<Seq<u8>>,
    removed: Seq<Dot>,
    dot: Dot,
    vv: Map<ActorId, u64>,
)
    requires
        rows_wf(elems, vv),
        vv_get(vv, dot.actor_id) >= dot.counter,
    ensures
        rows_wf(replicate_add_all(elems, vs, removed, dot), vv),
        forall|w: Seq<u8>|
            #![trigger support(replicate_add_all(elems, vs, removed, dot), w)]
            support(replicate_add_all(elems, vs, removed, dot), w) == (if vs.contains(w) {
                keep_dots(support(elems, w), removed).insert(dot.actor_id, dot.counter)
            } else {
                support(elems, w)
            }),
    decreases vs.len(),
{
    if vs.len() > 0 {
        let p = vs.drop_last();
        let mid = replicate_add_all(elems, p, removed, dot);
        lemma_replicate_add_all(elems, p, removed, dot, vv);
        lemma_replicate_add_one(mid, vs.last(), removed, dot, vv);
        assert forall|w: Seq<u8>|
            #![trigger support(replicate_add_all(elems, vs, removed, dot), w)]
            support(replicate_add_all(elems, vs, removed, dot), w) == (if vs.contains(w) {
                keep_dots(support(elems, w), removed).insert(dot.actor_id, dot.counter)
            } else {
                support(elems, w)
            }) by {
            lemma_contains_last(vs, w);
            assert(support(replicate_add_one(mid, vs.last(), removed, dot), w) == (if w
                == vs.last() {
                keep_dots(support(mid, vs.last()), removed).insert(dot.actor_id, dot.counter)
            } else {
                support(mid, w)
            }));
            lemma_keep_insert_twice(support(elems, w), removed, dot);
        }
    }
}

/// A remove made elsewhere leaves each value that it names with the dots
/// that the remove did not see, and every other value as it was.
pub proof fn lemma_replicate_remove_all(
    elems: Seq<ElementView>,
    vs: Seq<Seq<u8>>,
    removed: Seq<Dot>,
    vv: Map<ActorId, u64>,
)
    requires
        rows_wf(elems, vv),
    ensures
        rows_wf(replicate_remove_all(elems, vs, removed), vv),
        forall|w: Seq<u8>|
            #![trigger support(replicate_remove_all(elems, vs, removed), w)]
            support(replicate_remove_all(elems, vs, removed), w) == (if vs.contains(w) {
                keep_dots(support(elems, w), removed)
            } else {
                support(elems, w)
            }),
    decreases vs.len(),
{
    if vs.len() > 0 {
        let p = vs.drop_last();
        let mid = replicate_remove_all(elems, p, removed);
        lemma_replicate_remove_all(elems, p, removed, vv);
        lemma_replicate_remove_one(mid, vs.last(), removed, vv);
        assert forall|w: Seq<u8>|
            #![trigger support(replicate_remove_all(elems, vs, removed), w)]
            support(replicate_remove_all(elems, vs, removed), w) == (if vs.contains(w) {
                keep_dots(support(elems, w), removed)
            } else {
                support(elems, w)
            }) by {
            lemma_contains_last(vs, w);
            assert(support(replicate_remove_one(mid, vs.last(), removed), w) == (if w
                == vs.last() {
                keep_dots(support(mid, vs.last()), removed)
            } else {
                support(mid, w)
            }));
            lemma_keep_dots_twice(support(elems, w), removed);
        }
    }
}

/// A value has support in well-formed rows exactly where it has a row.
pub proof fn lemma_support_member(elems: Seq<ElementView>, vv: Map<ActorId, u64>, v: Seq<u8>)
    requires
        rows_wf(elems, vv),
    ensures
        (value_index(elems, v) >= 0) == (support(elems, v) != Map::<ActorId, u64>::empty()),
        dots_covered(support(elems, v), vv),
        has_order(support(elems, v)),
{
    lemma_value_index(elems, v);
    if value_index(elems, v) >= 0 {
        assert(dots_wf(elems[value_index(elems, v)].dots, vv));
    } else {
        lemma_has_order_empty();
    }
}

// ----- the store -----
/// Each operation keeps the invariants of the store: every dot row stays
/// within the version vector, every element row keeps a dot row, and no
/// value gets a second row.
pub proof fn lemma_operations_keep_wf(
    s: StoreView,
    set: Seq<char>,
    vs: Seq<Seq<u8>>,
    removed: Seq<Dot>,
    dot: Dot,
)
    requires
        s.wf(),
    ensures
        s.add_elements(set, vs, dot).wf(),
        s.remove_elements(set, vs, dot).wf(),
        s.replicate_add(set, vs, removed, dot).wf(),
        s.replicate_remove(set, vs, removed, dot).wf(),
{
    let vv = vv_update(s.vv, dot.actor_id, dot.counter);
    assert forall|n: Seq<char>| #[trigger] s.sets.dom().contains(n) implies rows_wf(s.sets[n], vv) by {
        lemma_rows_wf_update(s.sets[n], s.vv, dot.actor_id, dot.counter);
    }
    assert(rows_wf(s.elements(set), vv)) by {
        if !s.sets.dom().contains(set) {
            assert(rows_wf(Seq::<ElementView>::empty(), vv));
        }
    }
    lemma_add_all(s.elements(set), vs, dot, vv);
    lemma_remove_all(s.elements(set), vs, vv);
    lemma_replicate_add_all(s.elements(set), vs, removed, dot, vv);
    lemma_replicate_remove_all(s.elements(set), vs, removed, vv);
    let a = s.add_elements(set, vs, dot);
    assert forall|n: Seq<char>| #[trigger] a.sets.dom().contains(n) implies rows_wf(a.sets[n], a.vv) by {
        if vs.len() > 0 && n != set {
            assert(s.sets.dom().contains(n));
        }
    }
    let b = s.remove_elements(set, vs, dot);
    assert forall|n: Seq<char>| #[trigger] b.sets.dom().contains(n) implies rows_wf(b.sets[n], b.vv) by {
        assert(s.sets.dom().contains(n));
    }
    let c = s.replicate_add(set, vs, removed, dot);
    assert forall|n: Seq<char>| #[trigger] c.sets.dom().contains(n) implies rows_wf(c.sets[n], c.vv) by {
        if !(vs.len() > 0 && n == set) {
            assert(s.sets.dom().contains(n));
        }
    }
    let d = s.replicate_remove(set, vs, removed, dot);
    assert forall|n: Seq<char>| #[trigger] d.sets.dom().contains(n) implies rows_wf(d.sets[n], d.vv) by {
        assert(s.sets.dom().contains(n));
    }
}

} // verus!
