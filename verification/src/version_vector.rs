//! Version vectors: for each actor, the highest counter seen of it.
//!
//! A vector is kept as its dots in the order of their actors, one dot for
//! each actor that it names. Contracts speak of the map from actor to counter
//! that the dots stand for.

use crate::types::{ActorId, Dot};
use vstd::prelude::*;

verus! {

/// The counter that `m` holds for `a`: zero for an actor that it does not name.
pub open spec fn vv_get(m: Map<ActorId, u64>, a: ActorId) -> u64 {
    if m.dom().contains(a) {
        m[a]
    } else {
        0
    }
}

pub open spec fn max_u64(a: u64, b: u64) -> u64 {
    if a >= b {
        a
    } else {
        b
    }
}

/// `m` has seen every event that `other` has seen.
pub open spec fn vv_descends(m: Map<ActorId, u64>, other: Map<ActorId, u64>) -> bool {
    forall|a: ActorId| #[trigger] other.dom().contains(a) ==> vv_get(m, a) >= other[a]
}

/// `m` after `a` has made one more event.
pub open spec fn vv_increment(m: Map<ActorId, u64>, a: ActorId) -> Map<ActorId, u64> {
    m.insert(a, (vv_get(m, a) + 1) as u64)
}

/// `m` after it has learned that `a` has reached `c`.
pub open spec fn vv_update(m: Map<ActorId, u64>, a: ActorId, c: u64) -> Map<ActorId, u64> {
    m.insert(a, max_u64(vv_get(m, a), c))
}

/// The pointwise maximum of two vectors.
pub open spec fn vv_merge(m: Map<ActorId, u64>, other: Map<ActorId, u64>) -> Map<ActorId, u64> {
    Map::new(
        |a: ActorId| m.dom().contains(a) || other.dom().contains(a),
        |a: ActorId| max_u64(vv_get(m, a), vv_get(other, a)),
    )
}

/// The map that holds one dot.
pub open spec fn single_dot(d: Dot) -> Map<ActorId, u64> {
    Map::<ActorId, u64>::empty().insert(d.actor_id, d.counter)
}

/// The dots of `dots` that `removed` does not list.
pub open spec fn keep_dots(dots: Map<ActorId, u64>, removed: Seq<Dot>) -> Map<ActorId, u64> {
    Map::new(
        |a: ActorId| dots.dom().contains(a) && !removed.contains(Dot { actor_id: a, counter: dots[a] }),
        |a: ActorId| dots[a],
    )
}

/// The dots stand in the strict order of their actors.
pub open spec fn ordered(s: Seq<Dot>) -> bool {
    forall|i: int, j: int|
        0 <= i < j < s.len() ==> (#[trigger] s[i]).actor_id.key() < (#[trigger] s[j]).actor_id.key()
}

/// The place of the last dot of `a` in `s`, or -1.
pub open spec fn last_index_of(s: Seq<Dot>, a: ActorId) -> int
    decreases s.len(),
{
    if s.len() == 0 {
        -1
    } else if s.last().actor_id == a {
        s.len() - 1
    } else {
        last_index_of(s.drop_last(), a)
    }
}

/// The map that a sequence of dots stands for. Where an actor has several
/// dots, the last one counts.
pub open spec fn dots_map(s: Seq<Dot>) -> Map<ActorId, u64> {
    Map::new(
        |a: ActorId| last_index_of(s, a) >= 0,
        |a: ActorId| s[last_index_of(s, a)].counter,
    )
}

pub proof fn lemma_last_index_of(s: Seq<Dot>, a: ActorId)
    ensures
        -1 <= last_index_of(s, a) < s.len(),
        last_index_of(s, a) >= 0 ==> s[last_index_of(s, a)].actor_id == a,
        forall|k: int| last_index_of(s, a) < k < s.len() ==> (#[trigger] s[k]).actor_id != a,
    decreases s.len(),
{
    if s.len() > 0 && s.last().actor_id != a {
        lemma_last_index_of(s.drop_last(), a);
        assert forall|k: int| last_index_of(s, a) < k < s.len() implies (#[trigger] s[k]).actor_id
            != a by {
            if k < s.len() - 1 {
                assert(s[k] == s.drop_last()[k]);
            }
        }
    }
}

/// The last dot of `a` is the one after which no dot of `a` stands.
pub proof fn lemma_last_index_is(s: Seq<Dot>, a: ActorId, at: int)
    requires
        -1 <= at < s.len(),
        at >= 0 ==> s[at].actor_id == a,
        forall|k: int| at < k < s.len() ==> (#[trigger] s[k]).actor_id != a,
    ensures
        last_index_of(s, a) == at,
    decreases s.len(),
{
    if s.len() > 0 && at < s.len() - 1 {
        assert(s[s.len() - 1].actor_id != a);
        let t = s.drop_last();
        assert forall|k: int| at < k < t.len() implies (#[trigger] t[k]).actor_id != a by {
            assert(t[k] == s[k]);
        }
        lemma_last_index_is(t, a, at);
    }
}

/// In ordered dots every dot is the last of its actor.
pub proof fn lemma_ordered_index(s: Seq<Dot>, i: int)
    requires
        ordered(s),
        0 <= i < s.len(),
    ensures
        last_index_of(s, s[i].actor_id) == i,
        dots_map(s).dom().contains(s[i].actor_id),
        dots_map(s)[s[i].actor_id] == s[i].counter,
{
    assert forall|k: int| i < k < s.len() implies (#[trigger] s[k]).actor_id != s[i].actor_id by {
        assert(s[i].actor_id.key() < s[k].actor_id.key());
    }
    lemma_last_index_is(s, s[i].actor_id, i);
}

/// Adding a dot at the end sets its actor's counter.
pub proof fn lemma_dots_map_push(s: Seq<Dot>, d: Dot)
    ensures
        dots_map(s.push(d)) == dots_map(s).insert(d.actor_id, d.counter),
{
    let t = s.push(d);
    assert(t.drop_last() =~= s);
    assert forall|a: ActorId| #[trigger] last_index_of(t, a) == (if a == d.actor_id {
        s.len() as int
    } else {
        last_index_of(s, a)
    }) by {}
    assert forall|a: ActorId| last_index_of(s, a) >= 0 implies t[last_index_of(s, a)] == s[last_index_of(s, a)] by {
        lemma_last_index_of(s, a);
    }
    assert(dots_map(t) =~= dots_map(s).insert(d.actor_id, d.counter));
}

pub proof fn lemma_dots_map_empty()
    ensures
        dots_map(Seq::<Dot>::empty()) == Map::<ActorId, u64>::empty(),
{
    assert(dots_map(Seq::<Dot>::empty()) =~= Map::<ActorId, u64>::empty());
}

/// Putting a dot of an actor that ordered dots do not name at its place in
/// the order sets the actor's counter.
pub proof fn lemma_dots_map_insert(s: Seq<Dot>, at: int, d: Dot)
    requires
        ordered(s),
        0 <= at <= s.len(),
        forall|k: int| 0 <= k < at ==> (#[trigger] s[k]).actor_id.key() < d.actor_id.key(),
        forall|k: int| at <= k < s.len() ==> d.actor_id.key() < (#[trigger] s[k]).actor_id.key(),
    ensures
        ordered(s.insert(at, d)),
        dots_map(s.insert(at, d)) == dots_map(s).insert(d.actor_id, d.counter),
        !dots_map(s).dom().contains(d.actor_id),
{
    let t = s.insert(at, d);
    assert forall|i: int, j: int| 0 <= i < j < t.len() implies (#[trigger] t[i]).actor_id.key() < (
    #[trigger] t[j]).actor_id.key() by {
        let si = if i < at { i } else { i - 1 };
        let sj = if j < at { j } else { j - 1 };
        if i != at && j != at {
            assert(t[i] == s[si]);
            assert(t[j] == s[sj]);
        } else if i == at {
            assert(t[j] == s[sj]);
        } else {
            assert(t[i] == s[si]);
        }
    }
    assert forall|k: int| 0 <= k < s.len() implies (#[trigger] s[k]).actor_id != d.actor_id by {}
    lemma_last_index_is(s, d.actor_id, -1);
    assert forall|a: ActorId|
        #![trigger last_index_of(t, a)]
        (last_index_of(t, a) >= 0) == (a == d.actor_id || last_index_of(s, a) >= 0) && (
        last_index_of(t, a) >= 0 ==> t[last_index_of(t, a)].counter == (if a == d.actor_id {
            d.counter
        } else {
            s[last_index_of(s, a)].counter
        })) by {
        lemma_last_index_of(s, a);
        if a == d.actor_id {
            lemma_ordered_index(t, at);
        } else {
            let i = last_index_of(s, a);
            if i >= 0 {
                let ti = if i < at { i } else { i + 1 };
                assert(t[ti] == s[i]);
                lemma_ordered_index(t, ti);
            } else {
                assert forall|k: int| 0 <= k < t.len() implies (#[trigger] t[k]).actor_id != a by {
                    if k < at {
                        assert(t[k] == s[k]);
                    } else if k > at {
                        assert(t[k] == s[k - 1]);
                    }
                }
                lemma_last_index_is(t, a, -1);
            }
        }
    }
    assert(dots_map(t) =~= dots_map(s).insert(d.actor_id, d.counter));
}

/// Changing the counter of a dot of ordered dots sets its actor's counter.
pub proof fn lemma_dots_map_update(s: Seq<Dot>, at: int, c: u64)
    requires
        ordered(s),
        0 <= at < s.len(),
    ensures
        ordered(s.update(at, Dot { actor_id: s[at].actor_id, counter: c })),
        dots_map(s.update(at, Dot { actor_id: s[at].actor_id, counter: c })) == dots_map(s).insert(
            s[at].actor_id,
            c,
        ),
{
    let d = Dot { actor_id: s[at].actor_id, counter: c };
    let t = s.update(at, d);
    assert forall|i: int, j: int| 0 <= i < j < t.len() implies (#[trigger] t[i]).actor_id.key() < (
    #[trigger] t[j]).actor_id.key() by {
        assert(t[i].actor_id == s[i].actor_id);
        assert(t[j].actor_id == s[j].actor_id);
    }
    assert forall|a: ActorId|
        #![trigger last_index_of(t, a)]
        last_index_of(t, a) == last_index_of(s, a) && last_index_of(s, a) < s.len() && (
        last_index_of(s, a) >= 0 ==> s[last_index_of(s, a)].actor_id == a) by {
        lemma_last_index_of(s, a);
        let i = last_index_of(s, a);
        if i >= 0 {
            assert(t[i].actor_id == s[i].actor_id);
            lemma_ordered_index(t, i);
        } else {
            assert forall|k: int| 0 <= k < t.len() implies (#[trigger] t[k]).actor_id != a by {
                assert(t[k].actor_id == s[k].actor_id);
            }
            lemma_last_index_is(t, a, -1);
        }
    }
    lemma_ordered_index(s, at);
    assert(dots_map(t) =~= dots_map(s).insert(s[at].actor_id, c));
}

/// Ordered dots are fixed by the map that they stand for.
pub proof fn lemma_ordered_unique(left: Seq<Dot>, right: Seq<Dot>)
    requires
        ordered(left),
        ordered(right),
        dots_map(left) == dots_map(right),
    ensures
        left == right,
    decreases left.len(),
{
    let m = dots_map(left);
    if left.len() == 0 {
        if right.len() > 0 {
            lemma_ordered_index(right, 0);
            lemma_last_index_of(left, right[0].actor_id);
        }
        assert(left =~= right);
    } else if right.len() == 0 {
        lemma_ordered_index(left, 0);
        lemma_last_index_of(right, left[0].actor_id);
    } else {
        let last_left = left.last();
        let last_right = right.last();
        lemma_ordered_index(left, left.len() - 1);
        lemma_ordered_index(right, right.len() - 1);
        lemma_last_index_of(right, last_left.actor_id);
        lemma_last_index_of(left, last_right.actor_id);
        let p = last_index_of(right, last_left.actor_id);
        let q = last_index_of(left, last_right.actor_id);
        assert(right[p].actor_id.key() <= last_right.actor_id.key());
        assert(left[q].actor_id.key() <= last_left.actor_id.key());
        assert(last_left.actor_id == last_right.actor_id);
        assert(last_left == last_right);
        let rest_left = left.drop_last();
        let rest_right = right.drop_last();
        assert(ordered(rest_left)) by {
            assert forall|i: int, j: int| 0 <= i < j < rest_left.len() implies (#[trigger] rest_left[i]).actor_id.key()
                < (#[trigger] rest_left[j]).actor_id.key() by {
                assert(rest_left[i] == left[i] && rest_left[j] == left[j]);
            }
        }
        assert(ordered(rest_right)) by {
            assert forall|i: int, j: int| 0 <= i < j < rest_right.len() implies (#[trigger] rest_right[i]).actor_id.key()
                < (#[trigger] rest_right[j]).actor_id.key() by {
                assert(rest_right[i] == right[i] && rest_right[j] == right[j]);
            }
        }
        assert(left =~= rest_left.push(last_left));
        assert(right =~= rest_right.push(last_right));
        lemma_dots_map_push(rest_left, last_left);
        lemma_dots_map_push(rest_right, last_right);
        assert(!dots_map(rest_left).dom().contains(last_left.actor_id)) by {
            assert forall|k: int| 0 <= k < rest_left.len() implies (#[trigger] rest_left[k]).actor_id
                != last_left.actor_id by {
                assert(rest_left[k] == left[k]);
                assert(left[k].actor_id.key() < left[left.len() - 1].actor_id.key());
            }
            lemma_last_index_is(rest_left, last_left.actor_id, -1);
        }
        assert(!dots_map(rest_right).dom().contains(last_right.actor_id)) by {
            assert forall|k: int| 0 <= k < rest_right.len() implies (#[trigger] rest_right[k]).actor_id
                != last_right.actor_id by {
                assert(rest_right[k] == right[k]);
                assert(right[k].actor_id.key() < right[right.len() - 1].actor_id.key());
            }
            lemma_last_index_is(rest_right, last_right.actor_id, -1);
        }
        assert(dots_map(rest_left) =~= m.remove(last_left.actor_id));
        assert(dots_map(rest_right) =~= m.remove(last_left.actor_id));
        lemma_ordered_unique(rest_left, rest_right);
    }
}

/// The dots of a vector in the order of their actors.
pub open spec fn sorted_dots(m: Map<ActorId, u64>) -> Seq<Dot> {
    choose|s: Seq<Dot>| ordered(s) && dots_map(s) == m
}

/// The ordered dots of the map that ordered dots stand for are those dots.
pub proof fn lemma_sorted_dots(s: Seq<Dot>)
    requires
        ordered(s),
    ensures
        sorted_dots(dots_map(s)) == s,
{
    lemma_ordered_unique(sorted_dots(dots_map(s)), s);
}

/// The dots of the map can be put in the order of their actors: the map
/// holds finitely many dots.
pub open spec fn has_order(m: Map<ActorId, u64>) -> bool {
    exists|s: Seq<Dot>| ordered(s) && dots_map(s) == m
}

/// The dots of a map with an order, in that order, stand for the map.
pub proof fn lemma_sorted_dots_of(m: Map<ActorId, u64>)
    requires
        has_order(m),
    ensures
        ordered(sorted_dots(m)),
        dots_map(sorted_dots(m)) == m,
{
}

pub proof fn lemma_has_order_empty()
    ensures
        has_order(Map::<ActorId, u64>::empty()),
        sorted_dots(Map::<ActorId, u64>::empty()) == Seq::<Dot>::empty(),
{
    lemma_dots_map_empty();
    assert(ordered(Seq::<Dot>::empty()));
    lemma_sorted_dots(Seq::<Dot>::empty());
}

/// The number of dots of `s` whose actor stands before `key`.
pub open spec fn lower_bound(s: Seq<Dot>, key: int) -> int
    decreases s.len(),
{
    if s.len() == 0 {
        0
    } else if s.last().actor_id.key() < key {
        s.len() as int
    } else {
        lower_bound(s.drop_last(), key)
    }
}

proof fn lemma_lower_bound(s: Seq<Dot>, key: int)
    requires
        ordered(s),
    ensures
        0 <= lower_bound(s, key) <= s.len(),
        forall|k: int| 0 <= k < lower_bound(s, key) ==> (#[trigger] s[k]).actor_id.key() < key,
        forall|k: int| lower_bound(s, key) <= k < s.len() ==> (#[trigger] s[k]).actor_id.key() >= key,
    decreases s.len(),
{
    if s.len() > 0 {
        if s.last().actor_id.key() < key {
            assert forall|k: int| 0 <= k < s.len() implies (#[trigger] s[k]).actor_id.key() < key by {
                if k < s.len() - 1 {
                    assert(s[k].actor_id.key() < s[s.len() - 1].actor_id.key());
                }
            }
        } else {
            let t = s.drop_last();
            assert(ordered(t)) by {
                assert forall|i: int, j: int| 0 <= i < j < t.len() implies (
                #[trigger] t[i]).actor_id.key() < (#[trigger] t[j]).actor_id.key() by {
                    assert(t[i] == s[i] && t[j] == s[j]);
                }
            }
            lemma_lower_bound(t, key);
            assert forall|k: int| 0 <= k < lower_bound(s, key) implies (
            #[trigger] s[k]).actor_id.key() < key by {
                assert(s[k] == t[k]);
            }
            assert forall|k: int| lower_bound(s, key) <= k < s.len() implies (
            #[trigger] s[k]).actor_id.key() >= key by {
                if k < t.len() {
                    assert(s[k] == t[k]);
                }
            }
        }
    }
}

/// A map with an order keeps one when a counter is set.
pub proof fn lemma_has_order_insert(m: Map<ActorId, u64>, a: ActorId, c: u64)
    requires
        has_order(m),
    ensures
        has_order(m.insert(a, c)),
{
    let s = sorted_dots(m);
    lemma_last_index_of(s, a);
    let i = last_index_of(s, a);
    if i >= 0 {
        lemma_dots_map_update(s, i, c);
        let t = s.update(i, Dot { actor_id: a, counter: c });
        assert(ordered(t) && dots_map(t) == m.insert(a, c));
    } else {
        let at = lower_bound(s, a.key());
        lemma_lower_bound(s, a.key());
        let d = Dot { actor_id: a, counter: c };
        assert forall|k: int| at <= k < s.len() implies a.key() < (#[trigger] s[k]).actor_id.key() by {
            assert(s[k].actor_id != a);
        }
        lemma_dots_map_insert(s, at, d);
        let t = s.insert(at, d);
        assert(ordered(t) && dots_map(t) == m.insert(a, c));
    }
}

pub proof fn lemma_has_order_single(d: Dot)
    ensures
        has_order(single_dot(d)),
{
    lemma_has_order_empty();
    lemma_has_order_insert(Map::<ActorId, u64>::empty(), d.actor_id, d.counter);
}

/// Ordered dots without those that `removed` lists.
proof fn lemma_keep_ordered(s: Seq<Dot>, removed: Seq<Dot>) -> (t: Seq<Dot>)
    requires
        ordered(s),
    ensures
        ordered(t),
        dots_map(t) == keep_dots(dots_map(s), removed),
    decreases s.len(),
{
    if s.len() == 0 {
        lemma_dots_map_empty();
        assert(keep_dots(Map::<ActorId, u64>::empty(), removed) =~= Map::<ActorId, u64>::empty());
        s
    } else {
        let p = s.drop_last();
        let d = s.last();
        assert(ordered(p)) by {
            assert forall|i: int, j: int| 0 <= i < j < p.len() implies (
            #[trigger] p[i]).actor_id.key() < (#[trigger] p[j]).actor_id.key() by {
                assert(p[i] == s[i] && p[j] == s[j]);
            }
        }
        let tp = lemma_keep_ordered(p, removed);
        assert(s =~= p.push(d));
        lemma_dots_map_push(p, d);
        assert forall|k: int| 0 <= k < p.len() implies (#[trigger] p[k]).actor_id != d.actor_id by {
            assert(p[k] == s[k]);
            assert(s[k].actor_id.key() < s[s.len() - 1].actor_id.key());
        }
        lemma_last_index_is(p, d.actor_id, -1);
        let m = dots_map(p);
        let with_dot = m.insert(d.actor_id, d.counter);
        if removed.contains(d) {
            assert(keep_dots(with_dot, removed) =~= keep_dots(m, removed));
            tp
        } else {
            assert(keep_dots(with_dot, removed) =~= keep_dots(m, removed).insert(d.actor_id, d.counter));
            assert forall|k: int| 0 <= k < tp.len() implies (#[trigger] tp[k]).actor_id.key()
                < d.actor_id.key() by {
                lemma_ordered_index(tp, k);
                assert(m.dom().contains(tp[k].actor_id));
                lemma_last_index_of(p, tp[k].actor_id);
                let w = last_index_of(p, tp[k].actor_id);
                assert(p[w] == s[w]);
                assert(s[w].actor_id.key() < s[s.len() - 1].actor_id.key());
            }
            let t = tp.push(d);
            assert forall|i: int, j: int| 0 <= i < j < t.len() implies (
            #[trigger] t[i]).actor_id.key() < (#[trigger] t[j]).actor_id.key() by {
                if j < tp.len() {
                    assert(t[i] == tp[i] && t[j] == tp[j]);
                } else {
                    assert(t[i] == tp[i]);
                }
            }
            lemma_dots_map_push(tp, d);
            t
        }
    }
}

/// A map with an order keeps one when dots are taken away.
pub proof fn lemma_has_order_keep(m: Map<ActorId, u64>, removed: Seq<Dot>)
    requires
        has_order(m),
    ensures
        has_order(keep_dots(m, removed)),
{
    let t = lemma_keep_ordered(sorted_dots(m), removed);
}

/// Whether `d` is among `dots`.
pub fn dot_listed(dots: &[Dot], d: Dot) -> (r: bool)
    ensures
        r == dots@.contains(d),
{
    let mut i: usize = 0;
    while i < dots.len()
        invariant
            i <= dots@.len(),
            forall|k: int| 0 <= k < i ==> dots@[k] != d,
        decreases dots@.len() - i,
    {
        if dots[i] == d {
            return true;
        }
        i = i + 1;
    }
    false
}

/// A version vector.
#[derive(Debug, PartialEq, Eq)]
pub struct VersionVector {
    entries: Vec<Dot>,
}

impl View for VersionVector {
    type V = Map<ActorId, u64>;

    closed spec fn view(&self) -> Map<ActorId, u64> {
        dots_map(self.entries@)
    }
}

impl Clone for VersionVector {
    fn clone(&self) -> (r: Self)
        ensures
            r@ == self@,
    {
        proof {
            use_type_invariant(self);
        }
        let mut entries: Vec<Dot> = Vec::new();
        let mut i: usize = 0;
        while i < self.entries.len()
            invariant
                i <= self.entries.len(),
                entries@ == self.entries@.subrange(0, i as int),
            decreases self.entries.len() - i,
        {
            entries.push(self.entries[i]);
            assert(entries@ =~= self.entries@.subrange(0, i + 1));
            i = i + 1;
        }
        assert(entries@ =~= self.entries@);
        VersionVector { entries }
    }
}

impl Default for VersionVector {
    fn default() -> (r: Self)
        ensures
            r@ == Map::<ActorId, u64>::empty(),
    {
        VersionVector::new()
    }
}

impl VersionVector {
    #[verifier::type_invariant]
    spec fn entries_ordered(self) -> bool {
        ordered(self.entries@)
    }

    /// The vector that names no actor.
    pub fn new() -> (r: Self)
        ensures
            r@ == Map::<ActorId, u64>::empty(),
    {
        proof {
            lemma_dots_map_empty();
        }
        VersionVector { entries: Vec::new() }
    }

    /// The place of `actor_id` among the entries: the first entry whose actor
    /// is not before it.
    fn search(&self, actor_id: ActorId) -> (r: usize)
        ensures
            r <= self.entries@.len(),
            forall|k: int| 0 <= k < r ==> (#[trigger] self.entries@[k]).actor_id.key() < actor_id.key(),
            forall|k: int|
                r <= k < self.entries@.len() ==> actor_id.key() <= (
                #[trigger] self.entries@[k]).actor_id.key(),
    {
        proof {
            use_type_invariant(self);
        }
        let key: u32 = actor_id.sort_key();
        let mut i: usize = 0;
        while i < self.entries.len() && self.entries[i].actor_id.sort_key() < key
            invariant
                i <= self.entries@.len(),
                key == actor_id.key(),
                forall|k: int| 0 <= k < i ==> (#[trigger] self.entries@[k]).actor_id.key() < key,
            decreases self.entries@.len() - i,
        {
            i = i + 1;
        }
        assert forall|k: int| i <= k < self.entries@.len() implies actor_id.key() <= (
        #[trigger] self.entries@[k]).actor_id.key() by {
            if k > i {
                assert(self.entries@[i as int].actor_id.key() < self.entries@[k].actor_id.key());
            }
        }
        i
    }

    /// The counter of an actor: zero for one that the vector does not name.
    pub fn get(&self, actor_id: ActorId) -> (r: u64)
        ensures
            r == vv_get(self@, actor_id),
    {
        proof {
            use_type_invariant(self);
        }
        let i: usize = self.search(actor_id);
        if i < self.entries.len() && self.entries[i].actor_id.sort_key() == actor_id.sort_key() {
            proof {
                lemma_ordered_index(self.entries@, i as int);
            }
            self.entries[i].counter
        } else {
            proof {
                lemma_last_index_is(self.entries@, actor_id, -1);
            }
            0
        }
    }

    /// Sets the counter of an actor.
    pub fn set(&mut self, actor_id: ActorId, counter: u64)
        ensures
            final(self)@ == old(self)@.insert(actor_id, counter),
    {
        proof {
            use_type_invariant(&*self);
        }
        let i: usize = self.search(actor_id);
        let found = i < self.entries.len() && self.entries[i].actor_id.sort_key()
            == actor_id.sort_key();
        let mut entries: Vec<Dot> = Vec::new();
        core::mem::swap(&mut entries, &mut self.entries);
        if found {
            proof {
                lemma_dots_map_update(entries@, i as int, counter);
            }
            entries.set(i, Dot { actor_id, counter });
        } else {
            proof {
                lemma_dots_map_insert(entries@, i as int, Dot { actor_id, counter });
            }
            entries.insert(i, Dot { actor_id, counter });
        }
        self.entries = entries;
    }

    /// Counts one more event of `actor_id` and returns the dot of that event.
    pub fn increment(&mut self, actor_id: ActorId) -> (r: Dot)
        requires
            vv_get(old(self)@, actor_id) < u64::MAX,
        ensures
            final(self)@ == vv_increment(old(self)@, actor_id),
            r == (Dot { actor_id, counter: (vv_get(old(self)@, actor_id) + 1) as u64 }),
    {
        let counter: u64 = self.get(actor_id) + 1;
        self.set(actor_id, counter);
        Dot { actor_id, counter }
    }

    /// Raises the counter of `actor_id` to `counter`, unless it is there
    /// already.
    pub fn update(&mut self, actor_id: ActorId, counter: u64)
        ensures
            final(self)@ == vv_update(old(self)@, actor_id, counter),
    {
        let current: u64 = self.get(actor_id);
        let next: u64 = if current >= counter {
            current
        } else {
            counter
        };
        self.set(actor_id, next);
    }

    /// Takes from `other` every counter that is higher there.
    pub fn merge(&mut self, other: &VersionVector)
        ensures
            final(self)@ == vv_merge(old(self)@, other@),
    {
        proof {
            use_type_invariant(other);
            lemma_dots_map_empty();
            assert(other.entries@.subrange(0, 0) =~= Seq::<Dot>::empty());
            assert(self@ =~= vv_merge(self@, Map::<ActorId, u64>::empty()));
        }
        let ghost start = self@;
        let mut i: usize = 0;
        while i < other.entries.len()
            invariant
                i <= other.entries@.len(),
                ordered(other.entries@),
                self@ == vv_merge(start, dots_map(other.entries@.subrange(0, i as int))),
            decreases other.entries@.len() - i,
        {
            let d: Dot = other.entries[i];
            proof {
                let p = other.entries@.subrange(0, i as int);
                assert(other.entries@.subrange(0, i + 1) =~= p.push(d));
                lemma_dots_map_push(p, d);
                assert forall|k: int| 0 <= k < p.len() implies (#[trigger] p[k]).actor_id
                    != d.actor_id by {
                    assert(p[k] == other.entries@[k]);
                    assert(other.entries@[k].actor_id.key() < other.entries@[i as int].actor_id.key());
                }
                lemma_last_index_is(p, d.actor_id, -1);
                assert(vv_merge(start, dots_map(p).insert(d.actor_id, d.counter)) =~= vv_update(
                    vv_merge(start, dots_map(p)),
                    d.actor_id,
                    d.counter,
                ));
            }
            self.update(d.actor_id, d.counter);
            i = i + 1;
        }
        proof {
            assert(other.entries@.subrange(0, i as int) =~= other.entries@);
        }
    }

    /// Whether the vector has seen every event that `other` has seen.
    pub fn descends(&self, other: &VersionVector) -> (r: bool)
        ensures
            r == vv_descends(self@, other@),
    {
        proof {
            use_type_invariant(other);
        }
        let mut i: usize = 0;
        while i < other.entries.len()
            invariant
                i <= other.entries@.len(),
                ordered(other.entries@),
                forall|k: int|
                    0 <= k < i ==> vv_get(self@, (#[trigger] other.entries@[k]).actor_id)
                        >= other.entries@[k].counter,
            decreases other.entries@.len() - i,
        {
            let d: Dot = other.entries[i];
            if self.get(d.actor_id) < d.counter {
                proof {
                    lemma_ordered_index(other.entries@, i as int);
                    assert(other@.dom().contains(d.actor_id));
                }
                return false;
            }
            i = i + 1;
        }
        proof {
            assert forall|a: ActorId| #[trigger] other@.dom().contains(a) implies vv_get(self@, a)
                >= other@[a] by {
                lemma_last_index_of(other.entries@, a);
                let k = last_index_of(other.entries@, a);
                assert(other.entries@[k].actor_id == a);
            }
        }
        true
    }

    /// The vector that holds one dot.
    pub fn single(dot: Dot) -> (r: Self)
        ensures
            r@ == single_dot(dot),
    {
        let mut r = VersionVector::new();
        r.set(dot.actor_id, dot.counter);
        r
    }

    /// The vector without those of its dots that `removed` lists.
    pub fn without(&self, removed: &[Dot]) -> (r: Self)
        ensures
            r@ == keep_dots(self@, removed@),
    {
        proof {
            use_type_invariant(self);
            lemma_dots_map_empty();
            assert(self.entries@.subrange(0, 0) =~= Seq::<Dot>::empty());
            assert(keep_dots(Map::<ActorId, u64>::empty(), removed@) =~= Map::<ActorId, u64>::empty());
        }
        let mut out = VersionVector::new();
        let mut i: usize = 0;
        while i < self.entries.len()
            invariant
                i <= self.entries@.len(),
                ordered(self.entries@),
                out@ == keep_dots(dots_map(self.entries@.subrange(0, i as int)), removed@),
            decreases self.entries@.len() - i,
        {
            let d: Dot = self.entries[i];
            let listed = dot_listed(removed, d);
            proof {
                let p = self.entries@.subrange(0, i as int);
                assert(self.entries@.subrange(0, i + 1) =~= p.push(d));
                lemma_dots_map_push(p, d);
                assert forall|k: int| 0 <= k < p.len() implies (#[trigger] p[k]).actor_id
                    != d.actor_id by {
                    assert(p[k] == self.entries@[k]);
                    assert(self.entries@[k].actor_id.key() < self.entries@[i as int].actor_id.key());
                }
                lemma_last_index_is(p, d.actor_id, -1);
                let m = dots_map(p);
                let with_dot = m.insert(d.actor_id, d.counter);
                if listed {
                    assert(keep_dots(with_dot, removed@) =~= keep_dots(m, removed@));
                } else {
                    assert(keep_dots(with_dot, removed@) =~= keep_dots(m, removed@).insert(
                        d.actor_id,
                        d.counter,
                    ));
                }
            }
            if !listed {
                out.set(d.actor_id, d.counter);
            }
            i = i + 1;
        }
        proof {
            assert(self.entries@.subrange(0, i as int) =~= self.entries@);
        }
        out
    }

    /// Whether the vector names no actor.
    pub fn is_empty(&self) -> (r: bool)
        ensures
            r == (self@ == Map::<ActorId, u64>::empty()),
    {
        proof {
            use_type_invariant(self);
            if self.entries@.len() > 0 {
                lemma_ordered_index(self.entries@, 0);
            } else {
                lemma_dots_map_empty();
                assert(self.entries@ =~= Seq::<Dot>::empty());
            }
        }
        self.entries.len() == 0
    }

    /// The dots of the vector, one for each actor that it names, in the order
    /// of the actors.
    pub fn dots(&self) -> (r: Vec<Dot>)
        ensures
            r@ == sorted_dots(self@),
            ordered(r@),
            dots_map(r@) == self@,
    {
        proof {
            use_type_invariant(self);
            lemma_sorted_dots(self.entries@);
        }
        let c = self.clone();
        proof {
            use_type_invariant(&c);
            lemma_ordered_unique(c.entries@, self.entries@);
        }
        c.entries
    }

    /// The vector that the dots stand for; where an actor has several dots,
    /// the last one counts.
    pub fn from_dots(dots: &[Dot]) -> (r: Self)
        ensures
            r@ == dots_map(dots@),
    {
        let mut vv = VersionVector::new();
        let mut i: usize = 0;
        proof {
            lemma_dots_map_empty();
            assert(dots@.subrange(0, 0) =~= Seq::<Dot>::empty());
        }
        while i < dots.len()
            invariant
                i <= dots@.len(),
                vv@ == dots_map(dots@.subrange(0, i as int)),
            decreases dots@.len() - i,
        {
            let d: Dot = dots[i];
            proof {
                assert(dots@.subrange(0, i + 1) =~= dots@.subrange(0, i as int).push(d));
                lemma_dots_map_push(dots@.subrange(0, i as int), d);
            }
            vv.set(d.actor_id, d.counter);
            i = i + 1;
        }
        proof {
            assert(dots@.subrange(0, i as int) =~= dots@);
        }
        vv
    }
}

} // verus!
