//! The state of the store as plain values, and what each storage operation
//! does to it.
//!
//! A set is the sequence of its element rows in the order in which they were
//! inserted. An element row holds the element's value and the dots that
//! support it, at most one for each actor. The store holds the sets by name
//! and the version vector.

use crate::types::{ActorId, Dot};
pub use crate::version_vector::{keep_dots, single_dot};
use crate::version_vector::{has_order, sorted_dots, vv_get, vv_update};
use vstd::prelude::*;

verus! {

/// One element row with its dot rows.
pub struct ElementView {
    pub value: Seq<u8>,
    pub dots: Map<ActorId, u64>,
}

/// The whole store.
pub struct StoreView {
    pub sets: Map<Seq<char>, Seq<ElementView>>,
    pub vv: Map<ActorId, u64>,
}

/// The place of the last row of `elems` with value `v`, or -1.
pub open spec fn value_index(elems: Seq<ElementView>, v: Seq<u8>) -> int
    decreases elems.len(),
{
    if elems.len() == 0 {
        -1
    } else if elems.last().value == v {
        elems.len() - 1
    } else {
        value_index(elems.drop_last(), v)
    }
}

/// No two rows hold the same value.
pub open spec fn distinct_values(elems: Seq<ElementView>) -> bool {
    forall|i: int, j: int|
        0 <= i < j < elems.len() ==> (#[trigger] elems[i]).value != (#[trigger] elems[j]).value
}

/// The dots that support `v` in `elems`: none where `v` has no row.
pub open spec fn support(elems: Seq<ElementView>, v: Seq<u8>) -> Map<ActorId, u64> {
    if value_index(elems, v) >= 0 {
        elems[value_index(elems, v)].dots
    } else {
        Map::empty()
    }
}

/// The values of the rows, in their order.
pub open spec fn values(elems: Seq<ElementView>) -> Seq<Seq<u8>> {
    elems.map_values(|e: ElementView| e.value)
}

/// Every dot of `dots` is within `vv`.
pub open spec fn dots_covered(dots: Map<ActorId, u64>, vv: Map<ActorId, u64>) -> bool {
    forall|a: ActorId| #[trigger] dots.dom().contains(a) ==> vv_get(vv, a) >= dots[a]
}

/// Every dot listed is within `vv`.
pub open spec fn listed_covered(dots: Seq<Dot>, vv: Map<ActorId, u64>) -> bool {
    forall|i: int| 0 <= i < dots.len() ==> vv_get(vv, (#[trigger] dots[i]).actor_id) >= dots[i].counter
}

/// The dots of a row are in order: there is one at least, they are finitely
/// many, and each is within `vv`.
pub open spec fn dots_wf(dots: Map<ActorId, u64>, vv: Map<ActorId, u64>) -> bool {
    &&& dots != Map::<ActorId, u64>::empty()
    &&& has_order(dots)
    &&& dots_covered(dots, vv)
}

/// The rows of a set are in order: no value twice, every row supported by a
/// dot, every dot within `vv`.
pub open spec fn rows_wf(elems: Seq<ElementView>, vv: Map<ActorId, u64>) -> bool {
    &&& distinct_values(elems)
    &&& forall|i: int| 0 <= i < elems.len() ==> dots_wf((#[trigger] elems[i]).dots, vv)
}

// ----- a local add -----
/// A local add of `v` under `dot`: the row of `v` is left with the one new
/// dot; a value without a row gets one at the end.
pub open spec fn add_one(elems: Seq<ElementView>, v: Seq<u8>, dot: Dot) -> Seq<ElementView> {
    let i = value_index(elems, v);
    let row = ElementView { value: v, dots: single_dot(dot) };
    if i >= 0 {
        elems.update(i, row)
    } else {
        elems.push(row)
    }
}

/// The dots that supported `v`, in the order of their actors.
pub open spec fn displaced_one(elems: Seq<ElementView>, v: Seq<u8>) -> Seq<Dot> {
    sorted_dots(support(elems, v))
}

/// A local add of each of `vs` in turn.
pub open spec fn add_all(elems: Seq<ElementView>, vs: Seq<Seq<u8>>, dot: Dot) -> Seq<ElementView>
    decreases vs.len(),
{
    if vs.len() == 0 {
        elems
    } else {
        add_one(add_all(elems, vs.drop_last(), dot), vs.last(), dot)
    }
}

/// The dots that a local add of each of `vs` in turn displaces, in the order
/// in which it meets them.
pub open spec fn add_displaced(elems: Seq<ElementView>, vs: Seq<Seq<u8>>, dot: Dot) -> Seq<Dot>
    decreases vs.len(),
{
    if vs.len() == 0 {
        Seq::empty()
    } else {
        add_displaced(elems, vs.drop_last(), dot) + displaced_one(
            add_all(elems, vs.drop_last(), dot),
            vs.last(),
        )
    }
}

// ----- a local remove -----
/// A local remove of `v`: its row goes, with its dots.
pub open spec fn remove_one(elems: Seq<ElementView>, v: Seq<u8>) -> Seq<ElementView> {
    let i = value_index(elems, v);
    if i >= 0 {
        elems.remove(i)
    } else {
        elems
    }
}

pub open spec fn remove_all(elems: Seq<ElementView>, vs: Seq<Seq<u8>>) -> Seq<ElementView>
    decreases vs.len(),
{
    if vs.len() == 0 {
        elems
    } else {
        remove_one(remove_all(elems, vs.drop_last()), vs.last())
    }
}

pub open spec fn remove_displaced(elems: Seq<ElementView>, vs: Seq<Seq<u8>>) -> Seq<Dot>
    decreases vs.len(),
{
    if vs.len() == 0 {
        Seq::empty()
    } else {
        remove_displaced(elems, vs.drop_last()) + displaced_one(
            remove_all(elems, vs.drop_last()),
            vs.last(),
        )
    }
}

// ----- an add made elsewhere -----
/// An add of `v` made elsewhere: the dots that the add displaced there go
/// from the row of `v`, and the add's dot comes; a value without a row gets
/// one at the end.
pub open spec fn replicate_add_one(
    elems: Seq<ElementView>,
    v: Seq<u8>,
    removed: Seq<Dot>,
    dot: Dot,
) -> Seq<ElementView> {
    let i = value_index(elems, v);
    if i >= 0 {
        elems.update(
            i,
            ElementView {
                value: v,
                dots: keep_dots(elems[i].dots, removed).insert(dot.actor_id, dot.counter),
            },
        )
    } else {
        elems.push(ElementView { value: v, dots: single_dot(dot) })
    }
}

pub open spec fn replicate_add_all(
    elems: Seq<ElementView>,
    vs: Seq<Seq<u8>>,
    removed: Seq<Dot>,
    dot: Dot,
) -> Seq<ElementView>
    decreases vs.len(),
{
    if vs.len() == 0 {
        elems
    } else {
        replicate_add_one(
            replicate_add_all(elems, vs.drop_last(), removed, dot),
            vs.last(),
            removed,
            dot,
        )
    }
}

// ----- a remove made elsewhere -----
/// A remove of `v` made elsewhere: the dots that the remove saw there go from
/// the row of `v`, and the row goes with its last dot.
pub open spec fn replicate_remove_one(elems: Seq<ElementView>, v: Seq<u8>, removed: Seq<Dot>) -> Seq<
    ElementView,
> {
    let i = value_index(elems, v);
    if i >= 0 {
        let dots = keep_dots(elems[i].dots, removed);
        if dots == Map::<ActorId, u64>::empty() {
            elems.remove(i)
        } else {
            elems.update(i, ElementView { value: v, dots })
        }
    } else {
        elems
    }
}

pub open spec fn replicate_remove_all(
    elems: Seq<ElementView>,
    vs: Seq<Seq<u8>>,
    removed: Seq<Dot>,
) -> Seq<ElementView>
    decreases vs.len(),
{
    if vs.len() == 0 {
        elems
    } else {
        replicate_remove_one(
            replicate_remove_all(elems, vs.drop_last(), removed),
            vs.last(),
            removed,
        )
    }
}

impl StoreView {
    /// The store without sets, which has seen nothing.
    pub open spec fn empty() -> StoreView {
        StoreView { sets: Map::empty(), vv: Map::empty() }
    }

    /// The rows of a set: none for a set that does not exist.
    pub open spec fn elements(self, set: Seq<char>) -> Seq<ElementView> {
        if self.sets.dom().contains(set) {
            self.sets[set]
        } else {
            Seq::empty()
        }
    }

    /// The members of a set.
    pub open spec fn members(self, set: Seq<char>) -> Set<Seq<u8>> {
        Set::new(|v: Seq<u8>| value_index(self.elements(set), v) >= 0)
    }

    /// The invariants of the store: in every set no value has two rows, every
    /// element row has a dot row, and every dot row is within the version
    /// vector. That an element has at most one dot row for each actor lies in
    /// the dots being a map.
    pub open spec fn wf(self) -> bool {
        forall|set: Seq<char>| #[trigger] self.sets.dom().contains(set) ==> rows_wf(self.sets[set], self.vv)
    }

    pub open spec fn add_elements(self, set: Seq<char>, vs: Seq<Seq<u8>>, dot: Dot) -> StoreView {
        if vs.len() == 0 {
            self
        } else {
            StoreView {
                sets: self.sets.insert(set, add_all(self.elements(set), vs, dot)),
                vv: vv_update(self.vv, dot.actor_id, dot.counter),
            }
        }
    }

    pub open spec fn add_elements_displaced(self, set: Seq<char>, vs: Seq<Seq<u8>>, dot: Dot) -> Seq<
        Dot,
    > {
        add_displaced(self.elements(set), vs, dot)
    }

    pub open spec fn remove_elements(self, set: Seq<char>, vs: Seq<Seq<u8>>, dot: Dot) -> StoreView {
        if vs.len() == 0 || !self.sets.dom().contains(set) {
            self
        } else {
            StoreView {
                sets: self.sets.insert(set, remove_all(self.sets[set], vs)),
                vv: vv_update(self.vv, dot.actor_id, dot.counter),
            }
        }
    }

    pub open spec fn remove_elements_displaced(self, set: Seq<char>, vs: Seq<Seq<u8>>) -> Seq<Dot> {
        remove_displaced(self.elements(set), vs)
    }

    pub open spec fn replicate_add(
        self,
        set: Seq<char>,
        vs: Seq<Seq<u8>>,
        removed: Seq<Dot>,
        dot: Dot,
    ) -> StoreView {
        StoreView {
            sets: if vs.len() == 0 {
                self.sets
            } else {
                self.sets.insert(set, replicate_add_all(self.elements(set), vs, removed, dot))
            },
            vv: vv_update(self.vv, dot.actor_id, dot.counter),
        }
    }

    pub open spec fn replicate_remove(
        self,
        set: Seq<char>,
        vs: Seq<Seq<u8>>,
        removed: Seq<Dot>,
        dot: Dot,
    ) -> StoreView {
        StoreView {
            sets: if self.sets.dom().contains(set) {
                self.sets.insert(set, replicate_remove_all(self.sets[set], vs, removed))
            } else {
                self.sets
            },
            vv: vv_update(self.vv, dot.actor_id, dot.counter),
        }
    }
}

pub proof fn lemma_value_index(elems: Seq<ElementView>, v: Seq<u8>)
    ensures
        -1 <= value_index(elems, v) < elems.len(),
        value_index(elems, v) >= 0 ==> elems[value_index(elems, v)].value == v,
        forall|k: int| value_index(elems, v) < k < elems.len() ==> (#[trigger] elems[k]).value != v,
    decreases elems.len(),
{
    if elems.len() > 0 && elems.last().value != v {
        lemma_value_index(elems.drop_last(), v);
        assert forall|k: int| value_index(elems, v) < k < elems.len() implies (#[trigger] elems[k]).value
            != v by {
            if k < elems.len() - 1 {
                assert(elems[k] == elems.drop_last()[k]);
            }
        }
    }
}

pub proof fn lemma_value_index_is(elems: Seq<ElementView>, v: Seq<u8>, at: int)
    requires
        -1 <= at < elems.len(),
        at >= 0 ==> elems[at].value == v,
        forall|k: int| at < k < elems.len() ==> (#[trigger] elems[k]).value != v,
    ensures
        value_index(elems, v) == at,
    decreases elems.len(),
{
    if elems.len() > 0 && at < elems.len() - 1 {
        assert(elems[elems.len() - 1].value != v);
        let t = elems.drop_last();
        assert forall|k: int| at < k < t.len() implies (#[trigger] t[k]).value != v by {
            assert(t[k] == elems[k]);
        }
        lemma_value_index_is(t, v, at);
    }
}

/// Among rows with distinct values every row is the one of its value.
pub proof fn lemma_distinct_index(elems: Seq<ElementView>, i: int)
    requires
        distinct_values(elems),
        0 <= i < elems.len(),
    ensures
        value_index(elems, elems[i].value) == i,
{
    assert forall|k: int| i < k < elems.len() implies (#[trigger] elems[k]).value != elems[i].value by {}
    lemma_value_index_is(elems, elems[i].value, i);
}

/// Where no row holds `v`, `v` has no place.
pub proof fn lemma_value_absent(elems: Seq<ElementView>, v: Seq<u8>)
    requires
        forall|k: int| 0 <= k < elems.len() ==> (#[trigger] elems[k]).value != v,
    ensures
        value_index(elems, v) == -1,
{
    lemma_value_index_is(elems, v, -1);
}

} // verus!
