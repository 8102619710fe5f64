//! The storage engine with its rows held in memory.
//!
//! Each set has its element rows in the order in which they were inserted,
//! each element row has its dot rows in the order of their actors, and the
//! version vector is updated with each write.

use crate::blob::{bytes_content, bytes_eq, contents};
use crate::storage::{membership, Storage, StorageError};
use crate::store_lemmas::{
    lemma_add_one, lemma_remove_one, lemma_replicate_add_one, lemma_replicate_remove_one,
    lemma_rows_wf_update,
};
use crate::store_model::{
    add_all, add_displaced, distinct_values, lemma_distinct_index, lemma_value_absent,
    lemma_value_index, remove_all, remove_displaced, replicate_add_all, replicate_remove_all,
    rows_wf, support, value_index, values, ElementView, StoreView,
};
use crate::types::{ActorId, Dot, VersionVector};
use crate::version_vector::{
    lemma_dots_map_empty, lemma_sorted_dots, sorted_dots, vv_get, vv_update,
};
use bytes::Bytes;
use vstd::prelude::*;

verus! {

/// One element of a set with the dots that support it.
#[derive(Debug)]
pub struct ElementRow {
    value: Bytes,
    dots: VersionVector,
}

/// One set with its elements.
#[derive(Debug)]
pub struct SetRow {
    name: String,
    elements: Vec<ElementRow>,
}

/// The storage engine in memory.
#[derive(Debug)]
pub struct MemStorage {
    sets: Vec<SetRow>,
    vv: VersionVector,
}

pub closed spec fn row_view(r: ElementRow) -> ElementView {
    ElementView { value: bytes_content(r.value), dots: r.dots@ }
}

pub closed spec fn rows_view(s: Seq<ElementRow>) -> Seq<ElementView> {
    s.map_values(|r: ElementRow| row_view(r))
}

/// The place of the last set row with the name `name`, or -1.
pub closed spec fn name_index(sets: Seq<SetRow>, name: Seq<char>) -> int
    decreases sets.len(),
{
    if sets.len() == 0 {
        -1
    } else if sets.last().name@ == name {
        sets.len() - 1
    } else {
        name_index(sets.drop_last(), name)
    }
}

pub closed spec fn distinct_names(sets: Seq<SetRow>) -> bool {
    forall|i: int, j: int|
        0 <= i < j < sets.len() ==> (#[trigger] sets[i]).name@ != (#[trigger] sets[j]).name@
}

pub closed spec fn sets_map(sets: Seq<SetRow>) -> Map<Seq<char>, Seq<ElementView>> {
    Map::new(
        |n: Seq<char>| name_index(sets, n) >= 0,
        |n: Seq<char>| rows_view(sets[name_index(sets, n)].elements@),
    )
}

proof fn lemma_name_index(sets: Seq<SetRow>, name: Seq<char>)
    ensures
        -1 <= name_index(sets, name) < sets.len(),
        name_index(sets, name) >= 0 ==> sets[name_index(sets, name)].name@ == name,
        forall|k: int| name_index(sets, name) < k < sets.len() ==> (#[trigger] sets[k]).name@ != name,
    decreases sets.len(),
{
    if sets.len() > 0 && sets.last().name@ != name {
        lemma_name_index(sets.drop_last(), name);
        assert forall|k: int| name_index(sets, name) < k < sets.len() implies (
        #[trigger] sets[k]).name@ != name by {
            if k < sets.len() - 1 {
                assert(sets[k] == sets.drop_last()[k]);
            }
        }
    }
}

proof fn lemma_name_index_is(sets: Seq<SetRow>, name: Seq<char>, at: int)
    requires
        -1 <= at < sets.len(),
        at >= 0 ==> sets[at].name@ == name,
        forall|k: int| at < k < sets.len() ==> (#[trigger] sets[k]).name@ != name,
    ensures
        name_index(sets, name) == at,
    decreases sets.len(),
{
    if sets.len() > 0 && at < sets.len() - 1 {
        assert(sets[sets.len() - 1].name@ != name);
        let t = sets.drop_last();
        assert forall|k: int| at < k < t.len() implies (#[trigger] t[k]).name@ != name by {
            assert(t[k] == sets[k]);
        }
        lemma_name_index_is(t, name, at);
    }
}

/// Replacing the elements of one set row sets the rows of its name.
proof fn lemma_sets_map_update(sets: Seq<SetRow>, at: int, row: SetRow)
    requires
        distinct_names(sets),
        0 <= at < sets.len(),
        row.name@ == sets[at].name@,
    ensures
        distinct_names(sets.update(at, row)),
        sets_map(sets.update(at, row)) == sets_map(sets).insert(row.name@, rows_view(row.elements@)),
        sets_map(sets).dom().contains(row.name@),
        sets_map(sets)[row.name@] == rows_view(sets[at].elements@),
{
    let t = sets.update(at, row);
    assert forall|i: int, j: int| 0 <= i < j < t.len() implies (#[trigger] t[i]).name@ != (
    #[trigger] t[j]).name@ by {
        assert(t[i].name@ == sets[i].name@);
        assert(t[j].name@ == sets[j].name@);
    }
    assert forall|n: Seq<char>|
        #![trigger name_index(t, n)]
        name_index(t, n) == name_index(sets, n) && name_index(sets, n) < sets.len() && (name_index(
            sets,
            n,
        ) >= 0 ==> sets[name_index(sets, n)].name@ == n) by {
        lemma_name_index(sets, n);
        let i = name_index(sets, n);
        if i >= 0 {
            assert(t[i].name@ == sets[i].name@);
            assert forall|k: int| i < k < t.len() implies (#[trigger] t[k]).name@ != n by {
                assert(t[k].name@ == sets[k].name@);
            }
            lemma_name_index_is(t, n, i);
        } else {
            assert forall|k: int| -1 < k < t.len() implies (#[trigger] t[k]).name@ != n by {
                assert(t[k].name@ == sets[k].name@);
            }
            lemma_name_index_is(t, n, -1);
        }
    }
    assert forall|k: int| at < k < sets.len() implies (#[trigger] sets[k]).name@ != row.name@ by {}
    lemma_name_index_is(sets, row.name@, at);
    assert(sets_map(t) =~= sets_map(sets).insert(row.name@, rows_view(row.elements@)));
}

/// A set row put at the end of set rows that do not hold its name.
proof fn lemma_sets_map_push(sets: Seq<SetRow>, row: SetRow)
    requires
        distinct_names(sets),
        name_index(sets, row.name@) < 0,
    ensures
        distinct_names(sets.push(row)),
        sets_map(sets.push(row)) == sets_map(sets).insert(row.name@, rows_view(row.elements@)),
        !sets_map(sets).dom().contains(row.name@),
{
    let t = sets.push(row);
    assert(t.drop_last() =~= sets);
    lemma_name_index(sets, row.name@);
    assert forall|i: int, j: int| 0 <= i < j < t.len() implies (#[trigger] t[i]).name@ != (
    #[trigger] t[j]).name@ by {
        if j == sets.len() {
            assert(t[i] == sets[i]);
        } else {
            assert(t[i] == sets[i]);
            assert(t[j] == sets[j]);
        }
    }
    assert forall|n: Seq<char>|
        #![trigger name_index(t, n)]
        name_index(t, n) == (if n == row.name@ {
            sets.len() as int
        } else {
            name_index(sets, n)
        }) && name_index(sets, n) < sets.len() by {
        lemma_name_index(sets, n);
    }
    assert(sets_map(t) =~= sets_map(sets).insert(row.name@, rows_view(row.elements@)));
}

/// The place of the row of `v`.
fn find_row(rows: &Vec<ElementRow>, v: &Bytes) -> (r: Option<usize>)
    requires
        distinct_values(rows_view(rows@)),
    ensures
        match r {
            Some(i) => i < rows@.len() && value_index(rows_view(rows@), bytes_content(*v)) == i,
            None => value_index(rows_view(rows@), bytes_content(*v)) == -1,
        },
{
    let mut i: usize = 0;
    while i < rows.len()
        invariant
            i <= rows@.len(),
            distinct_values(rows_view(rows@)),
            forall|k: int| 0 <= k < i ==> (#[trigger] rows_view(rows@)[k]).value != bytes_content(*v),
        decreases rows@.len() - i,
    {
        if bytes_eq(&rows[i].value, v) {
            proof {
                assert(rows_view(rows@)[i as int].value == bytes_content(*v));
                lemma_distinct_index(rows_view(rows@), i as int);
            }
            return Some(i);
        }
        assert(rows_view(rows@)[i as int].value != bytes_content(*v));
        i = i + 1;
    }
    proof {
        lemma_value_absent(rows_view(rows@), bytes_content(*v));
    }
    None
}

/// The place of the set row with the name `name`.
fn find_set(sets: &Vec<SetRow>, name: &str) -> (r: Option<usize>)
    requires
        distinct_names(sets@),
    ensures
        match r {
            Some(i) => i < sets@.len() && name_index(sets@, name@) == i && sets@[i as int].name@
                == name@,
            None => name_index(sets@, name@) == -1,
        },
{
    let key = name.to_owned();
    let mut i: usize = 0;
    while i < sets.len()
        invariant
            i <= sets@.len(),
            key@ == name@,
            distinct_names(sets@),
            forall|k: int| 0 <= k < i ==> (#[trigger] sets@[k]).name@ != name@,
        decreases sets@.len() - i,
    {
        if sets[i].name == key {
            proof {
                assert forall|k: int| i < k < sets@.len() implies (#[trigger] sets@[k]).name@
                    != name@ by {}
                lemma_name_index_is(sets@, name@, i as int);
            }
            return Some(i);
        }
        i = i + 1;
    }
    proof {
        lemma_name_index_is(sets@, name@, -1);
    }
    None
}

proof fn lemma_contents_step(elements: Seq<Bytes>, i: int)
    requires
        0 <= i < elements.len(),
    ensures
        contents(elements.subrange(0, i + 1)).drop_last() == contents(elements.subrange(0, i)),
        contents(elements.subrange(0, i + 1)).last() == bytes_content(elements[i]),
        contents(elements.subrange(0, i + 1)).len() == i + 1,
{
    assert(contents(elements.subrange(0, i + 1)).drop_last() =~= contents(elements.subrange(0, i)));
}

proof fn lemma_sorted_dots_empty()
    ensures
        sorted_dots(Map::<ActorId, u64>::empty()) == Seq::<Dot>::empty(),
{
    lemma_dots_map_empty();
    lemma_sorted_dots(Seq::<Dot>::empty());
}

/// A local add on the rows of one set.
fn add_rows(rows: &mut Vec<ElementRow>, elements: &[Bytes], dot: Dot, Ghost(vv): Ghost<
    Map<ActorId, u64>,
>) -> (displaced: Vec<Dot>)
    requires
        rows_wf(rows_view(old(rows)@), vv),
        vv_get(vv, dot.actor_id) >= dot.counter,
    ensures
        rows_wf(rows_view(final(rows)@), vv),
        rows_view(final(rows)@) == add_all(rows_view(old(rows)@), contents(elements@), dot),
        displaced@ == add_displaced(rows_view(old(rows)@), contents(elements@), dot),
{
    let ghost start = rows_view(rows@);
    let mut displaced: Vec<Dot> = Vec::new();
    let mut i: usize = 0;
    proof {
        assert(elements@.subrange(0, 0) =~= Seq::<Bytes>::empty());
        assert(contents(elements@.subrange(0, 0)) =~= Seq::<Seq<u8>>::empty());
    }
    while i < elements.len()
        invariant
            i <= elements@.len(),
            vv_get(vv, dot.actor_id) >= dot.counter,
            rows_wf(rows_view(rows@), vv),
            rows_view(rows@) == add_all(start, contents(elements@.subrange(0, i as int)), dot),
            displaced@ == add_displaced(start, contents(elements@.subrange(0, i as int)), dot),
        decreases elements@.len() - i,
    {
        let ghost cur = rows_view(rows@);
        let ghost v = bytes_content(elements@[i as int]);
        proof {
            lemma_contents_step(elements@, i as int);
            lemma_add_one(cur, v, dot, vv);
            lemma_value_index(cur, v);
        }
        let row = ElementRow { value: elements[i].clone(), dots: VersionVector::single(dot) };
        match find_row(rows, &elements[i]) {
            Some(j) => {
                let mut old_dots = rows[j].dots.dots();
                assert(old_dots@ == sorted_dots(support(cur, v)));
                displaced.append(&mut old_dots);
                rows.set(j, row);
                assert(rows_view(rows@) =~= cur.update(j as int, row_view(row)));
            },
            None => {
                rows.push(row);
                proof {
                    lemma_sorted_dots_empty();
                    assert(rows_view(rows@) =~= cur.push(row_view(row)));
                    assert(displaced@ =~= displaced@ + Seq::<Dot>::empty());
                }
            },
        }
        i = i + 1;
    }
    proof {
        assert(elements@.subrange(0, i as int) =~= elements@);
    }
    displaced
}

/// A local remove on the rows of one set.
fn remove_rows(rows: &mut Vec<ElementRow>, elements: &[Bytes], Ghost(vv): Ghost<Map<ActorId, u64>>) -> (displaced:
    Vec<Dot>)
    requires
        rows_wf(rows_view(old(rows)@), vv),
    ensures
        rows_wf(rows_view(final(rows)@), vv),
        rows_view(final(rows)@) == remove_all(rows_view(old(rows)@), contents(elements@)),
        displaced@ == remove_displaced(rows_view(old(rows)@), contents(elements@)),
{
    let ghost start = rows_view(rows@);
    let mut displaced: Vec<Dot> = Vec::new();
    let mut i: usize = 0;
    proof {
        assert(elements@.subrange(0, 0) =~= Seq::<Bytes>::empty());
        assert(contents(elements@.subrange(0, 0)) =~= Seq::<Seq<u8>>::empty());
    }
    while i < elements.len()
        invariant
            i <= elements@.len(),
            rows_wf(rows_view(rows@), vv),
            rows_view(rows@) == remove_all(start, contents(elements@.subrange(0, i as int))),
            displaced@ == remove_displaced(start, contents(elements@.subrange(0, i as int))),
        decreases elements@.len() - i,
    {
        let ghost cur = rows_view(rows@);
        let ghost v = bytes_content(elements@[i as int]);
        proof {
            lemma_contents_step(elements@, i as int);
            lemma_remove_one(cur, v, vv);
            lemma_value_index(cur, v);
        }
        match find_row(rows, &elements[i]) {
            Some(j) => {
                let gone = rows.remove(j);
                let mut old_dots = gone.dots.dots();
                assert(old_dots@ == sorted_dots(support(cur, v)));
                displaced.append(&mut old_dots);
                assert(rows_view(rows@) =~= cur.remove(j as int));
            },
            None => {
                proof {
                    lemma_sorted_dots_empty();
                    assert(displaced@ =~= displaced@ + Seq::<Dot>::empty());
                }
            },
        }
        i = i + 1;
    }
    proof {
        assert(elements@.subrange(0, i as int) =~= elements@);
    }
    displaced
}

/// An add made elsewhere, on the rows of one set.
fn replicate_add_rows(
    rows: &mut Vec<ElementRow>,
    elements: &[Bytes],
    removed_dots: &[Dot],
    dot: Dot,
    Ghost(vv): Ghost<Map<ActorId, u64>>,
)
    requires
        rows_wf(rows_view(old(rows)@), vv),
        vv_get(vv, dot.actor_id) >= dot.counter,
    ensures
        rows_wf(rows_view(final(rows)@), vv),
        rows_view(final(rows)@) == replicate_add_all(
            rows_view(old(rows)@),
            contents(elements@),
            removed_dots@,
            dot,
        ),
{
    let ghost start = rows_view(rows@);
    let mut i: usize = 0;
    proof {
        assert(elements@.subrange(0, 0) =~= Seq::<Bytes>::empty());
        assert(contents(elements@.subrange(0, 0)) =~= Seq::<Seq<u8>>::empty());
    }
    while i < elements.len()
        invariant
            i <= elements@.len(),
            vv_get(vv, dot.actor_id) >= dot.counter,
            rows_wf(rows_view(rows@), vv),
            rows_view(rows@) == replicate_add_all(
                start,
                contents(elements@.subrange(0, i as int)),
                removed_dots@,
                dot,
            ),
        decreases elements@.len() - i,
    {
        let ghost cur = rows_view(rows@);
        let ghost v = bytes_content(elements@[i as int]);
        proof {
            lemma_contents_step(elements@, i as int);
            lemma_replicate_add_one(cur, v, removed_dots@, dot, vv);
            lemma_value_index(cur, v);
        }
        match find_row(rows, &elements[i]) {
            Some(j) => {
                let mut dots = rows[j].dots.without(removed_dots);
                dots.set(dot.actor_id, dot.counter);
                let row = ElementRow { value: elements[i].clone(), dots };
                rows.set(j, row);
                assert(rows_view(rows@) =~= cur.update(j as int, row_view(row)));
            },
            None => {
                let row = ElementRow {
                    value: elements[i].clone(),
                    dots: VersionVector::single(dot),
                };
                rows.push(row);
                assert(rows_view(rows@) =~= cur.push(row_view(row)));
            },
        }
        i = i + 1;
    }
    proof {
        assert(elements@.subrange(0, i as int) =~= elements@);
    }
}

/// A remove made elsewhere, on the rows of one set.
fn replicate_remove_rows(
    rows: &mut Vec<ElementRow>,
    elements: &[Bytes],
    removed_dots: &[Dot],
    Ghost(vv): Ghost<Map<ActorId, u64>>,
)
    requires
        rows_wf(rows_view(old(rows)@), vv),
    ensures
        rows_wf(rows_view(final(rows)@), vv),
        rows_view(final(rows)@) == replicate_remove_all(
            rows_view(old(rows)@),
            contents(elements@),
            removed_dots@,
        ),
{
    let ghost start = rows_view(rows@);
    let mut i: usize = 0;
    proof {
        assert(elements@.subrange(0, 0) =~= Seq::<Bytes>::empty());
        assert(contents(elements@.subrange(0, 0)) =~= Seq::<Seq<u8>>::empty());
    }
    while i < elements.len()
        invariant
            i <= elements@.len(),
            rows_wf(rows_view(rows@), vv),
            rows_view(rows@) == replicate_remove_all(
                start,
                contents(elements@.subrange(0, i as int)),
                removed_dots@,
            ),
        decreases elements@.len() - i,
    {
        let ghost cur = rows_view(rows@);
        let ghost v = bytes_content(elements@[i as int]);
        proof {
            lemma_contents_step(elements@, i as int);
            lemma_replicate_remove_one(cur, v, removed_dots@, vv);
            lemma_value_index(cur, v);
        }
        match find_row(rows, &elements[i]) {
            Some(j) => {
                let dots = rows[j].dots.without(removed_dots);
                if dots.is_empty() {
                    let gone = rows.remove(j);
                    assert(rows_view(rows@) =~= cur.remove(j as int));
                } else {
                    let row = ElementRow { value: elements[i].clone(), dots };
                    rows.set(j, row);
                    assert(rows_view(rows@) =~= cur.update(j as int, row_view(row)));
                }
            },
            None => {},
        }
        i = i + 1;
    }
    proof {
        assert(elements@.subrange(0, i as int) =~= elements@);
    }
}

impl Default for MemStorage {
    fn default() -> (r: Self)
        ensures
            r.view() == StoreView::empty(),
            r.view().wf(),
    {
        MemStorage::new()
    }
}

impl MemStorage {
    #[verifier::type_invariant]
    spec fn rows_in_order(self) -> bool {
        &&& distinct_names(self.sets@)
        &&& forall|i: int|
            0 <= i < self.sets@.len() ==> rows_wf(
                rows_view((#[trigger] self.sets@[i]).elements@),
                self.vv@,
            )
    }

    /// A store without sets that has seen nothing.
    pub fn new() -> (r: Self)
        ensures
            r.view() == StoreView::empty(),
            r.view().wf(),
    {
        let r = MemStorage { sets: Vec::new(), vv: VersionVector::new() };
        proof {
            assert(sets_map(r.sets@) =~= Map::<Seq<char>, Seq<ElementView>>::empty());
        }
        r
    }

    /// The invariants of the store hold of what it holds.
    pub fn check_rows(&self)
        ensures
            self.view().wf(),
    {
        proof {
            use_type_invariant(self);
            lemma_view_wf(self.sets@, self.vv@);
        }
    }
}

/// Set rows whose element rows are in order stand for a store in order.
proof fn lemma_view_wf(sets: Seq<SetRow>, vv: Map<ActorId, u64>)
    requires
        forall|i: int| 0 <= i < sets.len() ==> rows_wf(rows_view((#[trigger] sets[i]).elements@), vv),
    ensures
        (StoreView { sets: sets_map(sets), vv }).wf(),
{
    let s = StoreView { sets: sets_map(sets), vv };
    assert forall|n: Seq<char>| #[trigger] s.sets.dom().contains(n) implies rows_wf(s.sets[n], s.vv) by {
        lemma_name_index(sets, n);
        let i = name_index(sets, n);
        assert(rows_wf(rows_view(sets[i].elements@), vv));
    }
}

/// The rows of every set stay in order when the version vector learns more.
proof fn lemma_sets_wf_update(sets: Seq<SetRow>, vv: Map<ActorId, u64>, a: ActorId, c: u64)
    requires
        forall|i: int| 0 <= i < sets.len() ==> rows_wf(rows_view((#[trigger] sets[i]).elements@), vv),
    ensures
        forall|i: int|
            0 <= i < sets.len() ==> rows_wf(
                rows_view((#[trigger] sets[i]).elements@),
                vv_update(vv, a, c),
            ),
{
    assert forall|i: int| 0 <= i < sets.len() implies rows_wf(
        rows_view((#[trigger] sets[i]).elements@),
        vv_update(vv, a, c),
    ) by {
        lemma_rows_wf_update(rows_view(sets[i].elements@), vv, a, c);
    }
}

impl Storage for MemStorage {
    closed spec fn view(&self) -> StoreView {
        StoreView { sets: sets_map(self.sets@), vv: self.vv@ }
    }

    fn load_vv(&self) -> (r: Result<VersionVector, StorageError>)
        ensures
            r is Ok,
    {
        Ok(self.vv.clone())
    }

    fn add_elements(&mut self, set_name: &str, elements: &[Bytes], dot: Dot) -> (r: Result<
        Vec<Dot>,
        StorageError,
    >)
        ensures
            r is Ok,
    {
        proof {
            use_type_invariant(&*self);
        }
        if elements.len() == 0 {
            proof {
                assert(contents(elements@).len() == 0);
            }
            return Ok(Vec::new());
        }
        let mut sets: Vec<SetRow> = Vec::new();
        let mut vv = VersionVector::new();
        core::mem::swap(&mut sets, &mut self.sets);
        core::mem::swap(&mut vv, &mut self.vv);
        let ghost old_sets = sets@;
        let ghost old_vv = vv@;
        vv.update(dot.actor_id, dot.counter);
        proof {
            lemma_sets_wf_update(old_sets, old_vv, dot.actor_id, dot.counter);
        }
        let displaced;
        match find_set(&sets, set_name) {
            Some(i) => {
                let SetRow { name, elements: rows } = sets.remove(i);
                let mut rows = rows;
                assert(rows_wf(rows_view(old_sets[i as int].elements@), vv@));
                displaced = add_rows(&mut rows, elements, dot, Ghost(vv@));
                let row = SetRow { name, elements: rows };
                sets.insert(i, row);
                proof {
                    assert(sets@ =~= old_sets.update(i as int, row));
                    lemma_sets_map_update(old_sets, i as int, row);
                    assert forall|k: int| 0 <= k < sets@.len() implies rows_wf(
                        rows_view((#[trigger] sets@[k]).elements@),
                        vv@,
                    ) by {
                        if k != i {
                            assert(sets@[k] == old_sets[k]);
                        }
                    }
                }
            },
            None => {
                let mut rows: Vec<ElementRow> = Vec::new();
                proof {
                    assert(rows_view(rows@) =~= Seq::<ElementView>::empty());
                }
                displaced = add_rows(&mut rows, elements, dot, Ghost(vv@));
                let row = SetRow { name: set_name.to_owned(), elements: rows };
                sets.push(row);
                proof {
                    lemma_sets_map_push(old_sets, row);
                    assert forall|k: int| 0 <= k < sets@.len() implies rows_wf(
                        rows_view((#[trigger] sets@[k]).elements@),
                        vv@,
                    ) by {
                        if k < old_sets.len() {
                            assert(sets@[k] == old_sets[k]);
                        }
                    }
                }
            },
        }
        self.vv = vv;
        self.sets = sets;
        Ok(displaced)
    }

    fn remove_elements(&mut self, set_name: &str, elements: &[Bytes], dot: Dot) -> (r: Result<
        Vec<Dot>,
        StorageError,
    >)
        ensures
            r is Ok,
    {
        proof {
            use_type_invariant(&*self);
        }
        if elements.len() == 0 {
            proof {
                assert(contents(elements@).len() == 0);
            }
            return Ok(Vec::new());
        }
        match find_set(&self.sets, set_name) {
            None => {
                proof {
                    assert(contents(elements@).len() > 0);
                    assert(remove_displaced(Seq::<ElementView>::empty(), contents(elements@))
                        == Seq::<Dot>::empty()) by {
                        lemma_remove_nothing(contents(elements@));
                    }
                }
                Ok(Vec::new())
            },
            Some(i) => {
                let mut sets: Vec<SetRow> = Vec::new();
                let mut vv = VersionVector::new();
                core::mem::swap(&mut sets, &mut self.sets);
                core::mem::swap(&mut vv, &mut self.vv);
                let ghost old_sets = sets@;
                let ghost old_vv = vv@;
                vv.update(dot.actor_id, dot.counter);
                proof {
                    lemma_sets_wf_update(old_sets, old_vv, dot.actor_id, dot.counter);
                }
                let SetRow { name, elements: rows } = sets.remove(i);
                let mut rows = rows;
                assert(rows_wf(rows_view(old_sets[i as int].elements@), vv@));
                let displaced = remove_rows(&mut rows, elements, Ghost(vv@));
                let row = SetRow { name, elements: rows };
                sets.insert(i, row);
                proof {
                    assert(sets@ =~= old_sets.update(i as int, row));
                    lemma_sets_map_update(old_sets, i as int, row);
                    assert forall|k: int| 0 <= k < sets@.len() implies rows_wf(
                        rows_view((#[trigger] sets@[k]).elements@),
                        vv@,
                    ) by {
                        if k != i {
                            assert(sets@[k] == old_sets[k]);
                        }
                    }
                }
                self.vv = vv;
                self.sets = sets;
                Ok(displaced)
            },
        }
    }

    fn replicate_add(&mut self, set_name: &str, elements: &[Bytes], removed_dots: &[Dot], dot: Dot) -> (r:
        Result<(), StorageError>)
        ensures
            r is Ok,
    {
        proof {
            use_type_invariant(&*self);
        }
        let mut sets: Vec<SetRow> = Vec::new();
        let mut vv = VersionVector::new();
        core::mem::swap(&mut sets, &mut self.sets);
        core::mem::swap(&mut vv, &mut self.vv);
        let ghost old_sets = sets@;
        let ghost old_vv = vv@;
        vv.update(dot.actor_id, dot.counter);
        proof {
            lemma_sets_wf_update(old_sets, old_vv, dot.actor_id, dot.counter);
        }
        if elements.len() > 0 {
            match find_set(&sets, set_name) {
                Some(i) => {
                    let SetRow { name, elements: rows } = sets.remove(i);
                    let mut rows = rows;
                    assert(rows_wf(rows_view(old_sets[i as int].elements@), vv@));
                    replicate_add_rows(&mut rows, elements, removed_dots, dot, Ghost(vv@));
                    let row = SetRow { name, elements: rows };
                    sets.insert(i, row);
                    proof {
                        assert(sets@ =~= old_sets.update(i as int, row));
                        lemma_sets_map_update(old_sets, i as int, row);
                        assert forall|k: int| 0 <= k < sets@.len() implies rows_wf(
                            rows_view((#[trigger] sets@[k]).elements@),
                            vv@,
                        ) by {
                            if k != i {
                                assert(sets@[k] == old_sets[k]);
                            }
                        }
                    }
                },
                None => {
                    let mut rows: Vec<ElementRow> = Vec::new();
                    proof {
                        assert(rows_view(rows@) =~= Seq::<ElementView>::empty());
                    }
                    replicate_add_rows(&mut rows, elements, removed_dots, dot, Ghost(vv@));
                    let row = SetRow { name: set_name.to_owned(), elements: rows };
                    sets.push(row);
                    proof {
                        lemma_sets_map_push(old_sets, row);
                        assert forall|k: int| 0 <= k < sets@.len() implies rows_wf(
                            rows_view((#[trigger] sets@[k]).elements@),
                            vv@,
                        ) by {
                            if k < old_sets.len() {
                                assert(sets@[k] == old_sets[k]);
                            }
                        }
                    }
                },
            }
        } else {
            proof {
                assert(contents(elements@).len() == 0);
            }
        }
        self.vv = vv;
        self.sets = sets;
        Ok(())
    }

    fn replicate_remove(
        &mut self,
        set_name: &str,
        elements: &[Bytes],
        removed_dots: &[Dot],
        dot: Dot,
    ) -> (r: Result<(), StorageError>)
        ensures
            r is Ok,
    {
        proof {
            use_type_invariant(&*self);
        }
        let mut sets: Vec<SetRow> = Vec::new();
        let mut vv = VersionVector::new();
        core::mem::swap(&mut sets, &mut self.sets);
        core::mem::swap(&mut vv, &mut self.vv);
        let ghost old_sets = sets@;
        let ghost old_vv = vv@;
        vv.update(dot.actor_id, dot.counter);
        proof {
            lemma_sets_wf_update(old_sets, old_vv, dot.actor_id, dot.counter);
        }
        match find_set(&sets, set_name) {
            Some(i) => {
                let SetRow { name, elements: rows } = sets.remove(i);
                let mut rows = rows;
                assert(rows_wf(rows_view(old_sets[i as int].elements@), vv@));
                replicate_remove_rows(&mut rows, elements, removed_dots, Ghost(vv@));
                let row = SetRow { name, elements: rows };
                sets.insert(i, row);
                proof {
                    assert(sets@ =~= old_sets.update(i as int, row));
                    lemma_sets_map_update(old_sets, i as int, row);
                    assert forall|k: int| 0 <= k < sets@.len() implies rows_wf(
                        rows_view((#[trigger] sets@[k]).elements@),
                        vv@,
                    ) by {
                        if k != i {
                            assert(sets@[k] == old_sets[k]);
                        }
                    }
                }
            },
            None => {},
        }
        self.vv = vv;
        self.sets = sets;
        Ok(())
    }

    fn get_elements(&self, set_name: &str) -> (r: Result<Vec<Bytes>, StorageError>)
        ensures
            r is Ok,
    {
        proof {
            use_type_invariant(self);
        }
        let mut out: Vec<Bytes> = Vec::new();
        match find_set(&self.sets, set_name) {
            Some(i) => {
                let rows = &self.sets[i].elements;
                let mut k: usize = 0;
                while k < rows.len()
                    invariant
                        k <= rows@.len(),
                        out@.len() == k,
                        forall|j: int|
                            0 <= j < k ==> bytes_content(#[trigger] out@[j]) == rows_view(
                                rows@,
                            )[j].value,
                    decreases rows@.len() - k,
                {
                    out.push(rows[k].value.clone());
                    k = k + 1;
                }
                proof {
                    assert(contents(out@) =~= values(rows_view(rows@)));
                }
            },
            None => {
                proof {
                    assert(contents(out@) =~= values(Seq::<ElementView>::empty()));
                }
            },
        }
        Ok(out)
    }

    fn count_elements(&self, set_name: &str) -> (r: Result<u64, StorageError>)
        ensures
            r is Ok,
    {
        proof {
            use_type_invariant(self);
        }
        match find_set(&self.sets, set_name) {
            Some(i) => Ok(self.sets[i].elements.len() as u64),
            None => Ok(0),
        }
    }

    fn is_member(&self, set_name: &str, element: &Bytes) -> (r: Result<bool, StorageError>)
        ensures
            r is Ok,
    {
        proof {
            use_type_invariant(self);
        }
        match find_set(&self.sets, set_name) {
            Some(i) => {
                let found = find_row(&self.sets[i].elements, element);
                Ok(found.is_some())
            },
            None => Ok(false),
        }
    }

    fn are_members(&self, set_name: &str, elements: &[Bytes]) -> (r: Result<Vec<bool>, StorageError>)
        ensures
            r is Ok,
    {
        proof {
            use_type_invariant(self);
        }
        let found_set = find_set(&self.sets, set_name);
        let ghost rows = self.view().elements(set_name@);
        let mut out: Vec<bool> = Vec::new();
        let mut k: usize = 0;
        while k < elements.len()
            invariant
                k <= elements@.len(),
                out@.len() == k,
                rows == self.view().elements(set_name@),
                match found_set {
                    Some(i) => i < self.sets@.len() && rows == rows_view(
                        self.sets@[i as int].elements@,
                    ) && distinct_values(rows),
                    None => rows == Seq::<ElementView>::empty(),
                },
                forall|j: int|
                    0 <= j < k ==> #[trigger] out@[j] == (value_index(
                        rows,
                        bytes_content(elements@[j]),
                    ) >= 0),
            decreases elements@.len() - k,
        {
            let b = match found_set {
                Some(i) => find_row(&self.sets[i].elements, &elements[k]).is_some(),
                None => false,
            };
            out.push(b);
            k = k + 1;
        }
        proof {
            assert(out@ =~= membership(rows, contents(elements@)));
        }
        Ok(out)
    }
}

/// Removing from no rows displaces nothing.
proof fn lemma_remove_nothing(vs: Seq<Seq<u8>>)
    ensures
        remove_all(Seq::<ElementView>::empty(), vs) == Seq::<ElementView>::empty(),
        remove_displaced(Seq::<ElementView>::empty(), vs) == Seq::<Dot>::empty(),
    decreases vs.len(),
{
    if vs.len() > 0 {
        lemma_remove_nothing(vs.drop_last());
        lemma_sorted_dots_empty();
        assert(remove_displaced(Seq::<ElementView>::empty(), vs) =~= Seq::<Dot>::empty());
    }
}

} // verus!
