//! The buffers of replication: operations received too early, and
//! operations that a peer has not confirmed.

use crate::types::Operation;
use std::time::Instant;
use vstd::prelude::*;

verus! {

#[verifier::external_type_specification]
#[verifier::external_body]
pub struct ExInstant(std::time::Instant);

/// `Instant::now`: the time of the call, of which nothing is promised.
#[verifier::external_body]
fn now() -> Instant {
    Instant::now()
}

/// `part` holds the operations of `all` at the places `places`, which go
/// upwards: it is a part of `all` in the order of `all`.
pub open spec fn picks(all: Seq<Operation>, part: Seq<Operation>, places: Seq<int>) -> bool {
    &&& places.len() == part.len()
    &&& forall|k: int|
        0 <= k < places.len() ==> 0 <= #[trigger] places[k] < all.len() && part[k] == all[places[k]]
    &&& forall|k: int, l: int|
        0 <= k < l < places.len() ==> #[trigger] places[k] < #[trigger] places[l]
}

/// The operations that a replica has received and cannot apply yet, in the
/// order in which they came. It takes no more than `max_size` of them.
#[derive(Debug)]
pub struct PendingBuffer {
    ops: Vec<Operation>,
    max_size: usize,
}

impl View for PendingBuffer {
    type V = Seq<Operation>;

    closed spec fn view(&self) -> Seq<Operation> {
        self.ops@
    }
}

impl PendingBuffer {
    /// The most operations that the buffer takes through `add`.
    pub closed spec fn capacity(&self) -> usize {
        self.max_size
    }

    pub fn new(max_size: usize) -> (r: Self)
        ensures
            r@ == Seq::<Operation>::empty(),
            r.capacity() == max_size,
    {
        PendingBuffer { ops: Vec::new(), max_size }
    }

    /// Puts an operation at the end, unless the buffer is full: then the
    /// operation is dropped and the result is `false`.
    pub fn add(&mut self, op: Operation) -> (r: bool)
        ensures
            final(self).capacity() == old(self).capacity(),
            r == (old(self)@.len() < old(self).capacity()),
            r ==> final(self)@ == old(self)@.push(op),
            !r ==> final(self)@ == old(self)@,
    {
        if self.ops.len() >= self.max_size {
            return false;
        }
        self.ops.push(op);
        true
    }

    pub fn is_full(&self) -> (r: bool)
        ensures
            r == (self@.len() >= self.capacity()),
    {
        self.ops.len() >= self.max_size
    }

    pub fn is_empty(&self) -> (r: bool)
        ensures
            r == (self@.len() == 0),
    {
        self.ops.len() == 0
    }

    pub fn len(&self) -> (r: usize)
        ensures
            r == self@.len(),
    {
        self.ops.len()
    }

    pub fn max_size(&self) -> (r: usize)
        ensures
            r == self.capacity(),
    {
        self.max_size
    }

    pub fn operations(&self) -> (r: &[Operation])
        ensures
            r@ == self@,
    {
        self.ops.as_slice()
    }

    /// The operations, to change them in place. What is put there is not
    /// held to the buffer's size.
    pub fn operations_mut(&mut self) -> (r: &mut Vec<Operation>)
        ensures
            r@ == old(self)@,
            final(self)@ == final(r)@,
            final(self).capacity() == old(self).capacity(),
    {
        &mut self.ops
    }

    /// Takes out the operation at `index`; `None` where there is none.
    pub fn remove(&mut self, index: usize) -> (r: Option<Operation>)
        ensures
            final(self).capacity() == old(self).capacity(),
            index < old(self)@.len() ==> r == Some(old(self)@[index as int]) && final(self)@ == old(
                self,
            )@.remove(index as int),
            index >= old(self)@.len() ==> r is None && final(self)@ == old(self)@,
    {
        if index < self.ops.len() {
            Some(self.ops.remove(index))
        } else {
            None
        }
    }

    /// Keeps the operations of which `f` says `true`, in their order, and
    /// drops those of which it says `false`.
    pub fn retain<F: Fn(&Operation) -> bool>(&mut self, f: F)
        requires
            forall|op: &Operation| #[trigger] call_requires(f, (op,)),
        ensures
            final(self).capacity() == old(self).capacity(),
            final(self)@.len() <= old(self)@.len(),
            exists|places: Seq<int>| picks(old(self)@, final(self)@, places),
            forall|i: int|
                0 <= i < final(self)@.len() ==> old(self)@.contains(#[trigger] final(self)@[i])
                    && call_ensures(f, (&final(self)@[i],), true),
            forall|i: int|
                0 <= i < old(self)@.len() ==> final(self)@.contains(#[trigger] old(self)@[i])
                    || call_ensures(f, (&old(self)@[i],), false),
    {
        let mut kept: Vec<Operation> = Vec::new();
        let mut rest: Vec<Operation> = Vec::new();
        core::mem::swap(&mut rest, &mut self.ops);
        let ghost all = rest@;
        let ghost mut seen: int = 0;
        let ghost mut places: Seq<int> = Seq::empty();
        while rest.len() > 0
            invariant
                forall|op: &Operation| #[trigger] call_requires(f, (op,)),
                0 <= seen <= all.len(),
                picks(all, kept@, places),
                forall|k: int| 0 <= k < places.len() ==> #[trigger] places[k] < seen,
                rest@ == all.subrange(seen, all.len() as int),
                kept@.len() <= seen,
                forall|k: int|
                    0 <= k < kept@.len() ==> all.contains(#[trigger] kept@[k]) && call_ensures(
                        f,
                        (&kept@[k],),
                        true,
                    ),
                forall|k: int|
                    0 <= k < seen ==> kept@.contains(#[trigger] all[k]) || call_ensures(
                        f,
                        (&all[k],),
                        false,
                    ),
            decreases rest@.len(),
        {
            let ghost before_kept = kept@;
            let op = rest.remove(0);
            let keep = f(&op);
            proof {
                assert(all[seen] == op);
                assert(rest@ =~= all.subrange(seen + 1, all.len() as int));
            }
            if keep {
                kept.push(op);
                proof {
                    let before_places = places;
                    places = places.push(seen);
                    assert forall|k: int| 0 <= k < places.len() implies 0 <= #[trigger] places[k]
                        < all.len() && kept@[k] == all[places[k]] by {
                        if k < before_places.len() {
                            assert(places[k] == before_places[k]);
                            assert(kept@[k] == before_kept[k]);
                        }
                    }
                    assert forall|k: int, l: int| 0 <= k < l < places.len() implies #[trigger] places[k]
                        < #[trigger] places[l] by {
                        assert(places[k] == before_places[k]);
                        if l < before_places.len() {
                            assert(places[l] == before_places[l]);
                        }
                    }
                    assert(kept@[kept@.len() - 1] == all[seen]);
                    assert forall|k: int| 0 <= k < kept@.len() implies all.contains(
                        #[trigger] kept@[k],
                    ) && call_ensures(f, (&kept@[k],), true) by {
                        if k < before_kept.len() {
                            assert(kept@[k] == before_kept[k]);
                        }
                    }
                }
            }
            proof {
                assert forall|k: int| 0 <= k < seen + 1 implies kept@.contains(#[trigger] all[k])
                    || call_ensures(f, (&all[k],), false) by {
                    if k < seen {
                        if before_kept.contains(all[k]) {
                            let w = choose|w: int|
                                0 <= w < before_kept.len() && before_kept[w] == all[k];
                            assert(kept@[w] == all[k]);
                        }
                    } else if keep {
                        assert(kept@[kept@.len() - 1] == all[k]);
                    }
                }
                seen = seen + 1;
            }
        }
        self.ops = kept;
    }

    pub fn clear(&mut self)
        ensures
            final(self).capacity() == old(self).capacity(),
            final(self)@ == Seq::<Operation>::empty(),
    {
        self.ops.clear();
    }

    /// Takes all operations out.
    pub fn drain(&mut self) -> (r: Vec<Operation>)
        ensures
            final(self).capacity() == old(self).capacity(),
            final(self)@ == Seq::<Operation>::empty(),
            r@ == old(self)@,
    {
        let mut out: Vec<Operation> = Vec::new();
        core::mem::swap(&mut out, &mut self.ops);
        out
    }
}

/// The operations that were sent and not confirmed, for each peer in the
/// order in which they were sent, each with the time at which it was sent
/// and the number of times it was sent again.
#[derive(Debug)]
pub struct UnackedBuffer {
    peers: Vec<String>,
    queues: Vec<Vec<(Operation, Instant, u32)>>,
}

/// The place of `peer` among `peers`, or -1.
pub closed spec fn peer_index(peers: Seq<String>, peer: Seq<char>) -> int
    decreases peers.len(),
{
    if peers.len() == 0 {
        -1
    } else if peers.last()@ == peer {
        peers.len() - 1
    } else {
        peer_index(peers.drop_last(), peer)
    }
}

/// The number of operations in all of `queues`.
pub closed spec fn queued(queues: Seq<Vec<(Operation, Instant, u32)>>) -> nat
    decreases queues.len(),
{
    if queues.len() == 0 {
        0
    } else {
        queued(queues.drop_last()) + queues.last()@.len()
    }
}

pub closed spec fn distinct_peers(peers: Seq<String>) -> bool {
    forall|i: int, j: int| 0 <= i < j < peers.len() ==> (#[trigger] peers[i])@ != (#[trigger] peers[j])@
}

proof fn lemma_peer_index(peers: Seq<String>, peer: Seq<char>)
    ensures
        -1 <= peer_index(peers, peer) < peers.len(),
        peer_index(peers, peer) >= 0 ==> peers[peer_index(peers, peer)]@ == peer,
        forall|k: int| peer_index(peers, peer) < k < peers.len() ==> (#[trigger] peers[k])@ != peer,
    decreases peers.len(),
{
    if peers.len() > 0 && peers.last()@ != peer {
        lemma_peer_index(peers.drop_last(), peer);
        assert forall|k: int| peer_index(peers, peer) < k < peers.len() implies (
        #[trigger] peers[k])@ != peer by {
            if k < peers.len() - 1 {
                assert(peers[k] == peers.drop_last()[k]);
            }
        }
    }
}

proof fn lemma_peer_index_is(peers: Seq<String>, peer: Seq<char>, at: int)
    requires
        -1 <= at < peers.len(),
        at >= 0 ==> peers[at]@ == peer,
        forall|k: int| at < k < peers.len() ==> (#[trigger] peers[k])@ != peer,
    ensures
        peer_index(peers, peer) == at,
    decreases peers.len(),
{
    if peers.len() > 0 && at < peers.len() - 1 {
        assert(peers[peers.len() - 1]@ != peer);
        let t = peers.drop_last();
        assert forall|k: int| at < k < t.len() implies (#[trigger] t[k])@ != peer by {
            assert(t[k] == peers[k]);
        }
        lemma_peer_index_is(t, peer, at);
    }
}

/// Among distinct peers each one stands at its own place only.
proof fn lemma_distinct_peer(peers: Seq<String>, i: int)
    requires
        distinct_peers(peers),
        0 <= i < peers.len(),
    ensures
        peer_index(peers, peers[i]@) == i,
{
    assert forall|k: int| i < k < peers.len() implies (#[trigger] peers[k])@ != peers[i]@ by {}
    lemma_peer_index_is(peers, peers[i]@, i);
}

/// The count of all operations when one queue is replaced.
proof fn lemma_queued_update(
    queues: Seq<Vec<(Operation, Instant, u32)>>,
    at: int,
    q: Vec<(Operation, Instant, u32)>,
)
    requires
        0 <= at < queues.len(),
    ensures
        queued(queues.update(at, q)) == queued(queues) - queues[at]@.len() + q@.len(),
    decreases queues.len(),
{
    let t = queues.update(at, q);
    if at == queues.len() - 1 {
        assert(t.drop_last() =~= queues.drop_last());
    } else {
        assert(t.drop_last() =~= queues.drop_last().update(at, q));
        lemma_queued_update(queues.drop_last(), at, q);
    }
}

/// The count of all operations when one queue is taken out.
proof fn lemma_queued_remove(queues: Seq<Vec<(Operation, Instant, u32)>>, at: int)
    requires
        0 <= at < queues.len(),
    ensures
        queued(queues.remove(at)) == queued(queues) - queues[at]@.len(),
    decreases queues.len(),
{
    let t = queues.remove(at);
    if at == queues.len() - 1 {
        assert(t =~= queues.drop_last());
    } else {
        assert(t.drop_last() =~= queues.drop_last().remove(at));
        assert(t.last() == queues.last());
        lemma_queued_remove(queues.drop_last(), at);
    }
}

/// Peers without one of them.
proof fn lemma_peers_remove(peers: Seq<String>, i: int)
    requires
        distinct_peers(peers),
        0 <= i < peers.len(),
    ensures
        distinct_peers(peers.remove(i)),
        forall|p: Seq<char>|
            #![trigger peer_index(peers.remove(i), p)]
            peer_index(peers.remove(i), p) == (if p == peers[i]@ || peer_index(peers, p) < 0 {
                -1
            } else if peer_index(peers, p) < i {
                peer_index(peers, p)
            } else {
                peer_index(peers, p) - 1
            }),
{
    let r = peers.remove(i);
    assert forall|a: int, b: int| 0 <= a < b < r.len() implies (#[trigger] r[a])@ != (
    #[trigger] r[b])@ by {
        let sa = if a < i { a } else { a + 1 };
        let sb = if b < i { b } else { b + 1 };
        assert(r[a] == peers[sa]);
        assert(r[b] == peers[sb]);
    }
    assert forall|p: Seq<char>|
        #![trigger peer_index(r, p)]
        peer_index(r, p) == (if p == peers[i]@ || peer_index(peers, p) < 0 {
            -1
        } else if peer_index(peers, p) < i {
            peer_index(peers, p)
        } else {
            peer_index(peers, p) - 1
        }) by {
        lemma_peer_index(peers, p);
        lemma_distinct_peer(peers, i);
        let k = peer_index(peers, p);
        if p == peers[i]@ || k < 0 {
            assert forall|w: int| -1 < w < r.len() implies (#[trigger] r[w])@ != p by {
                let sw = if w < i { w } else { w + 1 };
                assert(r[w] == peers[sw]);
                if p == peers[i]@ {
                    if sw < i {
                        assert(peers[sw]@ != peers[i]@);
                    } else {
                        assert(peers[i]@ != peers[sw]@);
                    }
                }
            }
            lemma_peer_index_is(r, p, -1);
        } else {
            let rk = if k < i { k } else { k - 1 };
            assert(r[rk] == peers[k]);
            assert forall|w: int| rk < w < r.len() implies (#[trigger] r[w])@ != p by {
                let sw = if w < i { w } else { w + 1 };
                assert(r[w] == peers[sw]);
            }
            lemma_peer_index_is(r, p, rk);
        }
    }
}

/// Peers with one more at the end.
proof fn lemma_peers_push(peers: Seq<String>, peer: String)
    requires
        distinct_peers(peers),
        peer_index(peers, peer@) < 0,
    ensures
        distinct_peers(peers.push(peer)),
        forall|p: Seq<char>|
            #![trigger peer_index(peers.push(peer), p)]
            peer_index(peers.push(peer), p) == (if p == peer@ {
                peers.len() as int
            } else {
                peer_index(peers, p)
            }),
{
    let r = peers.push(peer);
    assert(r.drop_last() =~= peers);
    lemma_peer_index(peers, peer@);
    assert forall|a: int, b: int| 0 <= a < b < r.len() implies (#[trigger] r[a])@ != (
    #[trigger] r[b])@ by {
        if b < peers.len() {
            assert(r[a] == peers[a]);
            assert(r[b] == peers[b]);
        } else {
            assert(r[a] == peers[a]);
        }
    }
}

/// The peers with a queue are as many as the queues.
proof fn lemma_dom_len(peers: Seq<String>)
    requires
        distinct_peers(peers),
    ensures
        Set::new(|p: Seq<char>| peer_index(peers, p) >= 0).finite(),
        Set::new(|p: Seq<char>| peer_index(peers, p) >= 0).len() == peers.len(),
    decreases peers.len(),
{
    let s = Set::new(|p: Seq<char>| peer_index(peers, p) >= 0);
    if peers.len() == 0 {
        assert(s =~= Set::<Seq<char>>::empty());
    } else {
        let t = peers.drop_last();
        let st = Set::new(|p: Seq<char>| peer_index(t, p) >= 0);
        assert forall|i: int, j: int| 0 <= i < j < t.len() implies (#[trigger] t[i])@ != (
        #[trigger] t[j])@ by {
            assert(t[i] == peers[i]);
            assert(t[j] == peers[j]);
        }
        lemma_dom_len(t);
        let last = peers.last()@;
        assert(!st.contains(last)) by {
            lemma_peer_index(t, last);
            let k = peer_index(t, last);
            if k >= 0 {
                assert(t[k] == peers[k]);
                assert(peers[k]@ != peers[peers.len() - 1]@);
            }
        }
        assert(s =~= st.insert(last));
    }
}

impl View for UnackedBuffer {
    type V = Map<Seq<char>, Seq<(Operation, Instant, u32)>>;

    closed spec fn view(&self) -> Map<Seq<char>, Seq<(Operation, Instant, u32)>> {
        Map::new(
            |p: Seq<char>| peer_index(self.peers@, p) >= 0,
            |p: Seq<char>| self.queues@[peer_index(self.peers@, p)]@,
        )
    }
}

impl Default for UnackedBuffer {
    fn default() -> (r: Self)
        ensures
            r@ == Map::<Seq<char>, Seq<(Operation, Instant, u32)>>::empty(),
            r.total() == 0,
    {
        UnackedBuffer::new()
    }
}

impl UnackedBuffer {
    #[verifier::type_invariant]
    spec fn one_queue_each(self) -> bool {
        &&& distinct_peers(self.peers@)
        &&& self.peers@.len() == self.queues@.len()
    }

    /// The number of operations of all peers.
    pub closed spec fn total(&self) -> nat {
        queued(self.queues@)
    }

    pub fn new() -> (r: Self)
        ensures
            r@ == Map::<Seq<char>, Seq<(Operation, Instant, u32)>>::empty(),
            r.total() == 0,
    {
        let r = UnackedBuffer { peers: Vec::new(), queues: Vec::new() };
        assert(r@ =~= Map::<Seq<char>, Seq<(Operation, Instant, u32)>>::empty());
        r
    }

    fn find(&self, peer_id: &str) -> (r: Option<usize>)
        ensures
            match r {
                Some(i) => i < self.peers@.len() && peer_index(self.peers@, peer_id@) == i,
                None => peer_index(self.peers@, peer_id@) == -1,
            },
    {
        proof {
            use_type_invariant(self);
        }
        let key = peer_id.to_owned();
        let mut i: usize = 0;
        while i < self.peers.len()
            invariant
                i <= self.peers@.len(),
                key@ == peer_id@,
                distinct_peers(self.peers@),
                forall|k: int| 0 <= k < i ==> (#[trigger] self.peers@[k])@ != peer_id@,
            decreases self.peers@.len() - i,
        {
            if self.peers[i] == key {
                proof {
                    lemma_distinct_peer(self.peers@, i as int);
                }
                return Some(i);
            }
            i = i + 1;
        }
        proof {
            lemma_peer_index_is(self.peers@, peer_id@, -1);
        }
        None
    }

    /// Notes that `op` was sent to the peer now, for the first time.
    pub fn add(&mut self, peer_id: String, op: Operation)
        ensures
            final(self)@.dom() == old(self)@.dom().insert(peer_id@),
            forall|p: Seq<char>|
                p != peer_id@ && old(self)@.dom().contains(p) ==> #[trigger] final(self)@[p] == old(
                    self,
                )@[p],
            ({
                let before = if old(self)@.dom().contains(peer_id@) {
                    old(self)@[peer_id@]
                } else {
                    Seq::empty()
                };
                let after = final(self)@[peer_id@];
                &&& after.len() == before.len() + 1
                &&& after.subrange(0, before.len() as int) == before
                &&& after.last().0 == op
                &&& after.last().2 == 0
            }),
            final(self).total() == old(self).total() + 1,
    {
        proof {
            use_type_invariant(&*self);
        }
        let found = self.find(peer_id.as_str());
        let mut taken = UnackedBuffer::new();
        core::mem::swap(&mut taken, self);
        let UnackedBuffer { peers, queues } = taken;
        let mut peers = peers;
        let mut queues = queues;
        let ghost old_peers = peers@;
        let ghost old_queues = queues@;
        let entry = (op, now(), 0u32);
        match found {
            Some(i) => {
                let mut q = queues.remove(i);
                q.push(entry);
                queues.insert(i, q);
                proof {
                    assert(queues@ =~= old_queues.update(i as int, q));
                    lemma_queued_update(old_queues, i as int, q);
                    assert(q@.subrange(0, old_queues[i as int]@.len() as int)
                        =~= old_queues[i as int]@);
                    assert forall|p: Seq<char>|
                        #![trigger peer_index(old_peers, p)]
                        peer_index(old_peers, p) < old_peers.len() && (peer_index(old_peers, p)
                            >= 0 ==> old_peers[peer_index(old_peers, p)]@ == p) by {
                        lemma_peer_index(old_peers, p);
                    }
                }
            },
            None => {
                let mut q: Vec<(Operation, Instant, u32)> = Vec::new();
                q.push(entry);
                proof {
                    lemma_peers_push(old_peers, peer_id);
                    assert(q@.subrange(0, 0) =~= Seq::<(Operation, Instant, u32)>::empty());
                    assert forall|p: Seq<char>|
                        #![trigger peer_index(old_peers, p)]
                        peer_index(old_peers, p) < old_peers.len() by {
                        lemma_peer_index(old_peers, p);
                    }
                }
                peers.push(peer_id);
                queues.push(q);
                proof {
                    assert(queues@.drop_last() =~= old_queues);
                }
            },
        }
        *self = UnackedBuffer { peers, queues };
        proof {
            assert(self@.dom() =~= old(self)@.dom().insert(peer_id@));
        }
    }

    /// Takes out the operation at `op_index` of the peer's queue, once the
    /// peer has confirmed it. `false` where there is none.
    pub fn remove(&mut self, peer_id: &str, op_index: usize) -> (r: bool)
        ensures
            r == (old(self)@.dom().contains(peer_id@) && op_index < old(self)@[peer_id@].len()),
            r ==> final(self)@ == old(self)@.insert(
                peer_id@,
                old(self)@[peer_id@].remove(op_index as int),
            ) && final(self).total() == old(self).total() - 1,
            !r ==> final(self)@ == old(self)@ && final(self).total() == old(self).total(),
    {
        proof {
            use_type_invariant(&*self);
        }
        match self.find(peer_id) {
            Some(i) => {
                if op_index < self.queues[i].len() {
                    let mut taken = UnackedBuffer::new();
                    core::mem::swap(&mut taken, self);
                    let UnackedBuffer { peers, queues } = taken;
                    let mut peers = peers;
                    let mut queues = queues;
                    let ghost old_queues = queues@;
                    let mut q = queues.remove(i);
                    let gone = q.remove(op_index);
                    queues.insert(i, q);
                    proof {
                        assert(queues@ =~= old_queues.update(i as int, q));
                        lemma_queued_update(old_queues, i as int, q);
                        assert forall|p: Seq<char>|
                            #![trigger peer_index(peers@, p)]
                            peer_index(peers@, p) < peers@.len() && (peer_index(peers@, p) >= 0
                                ==> peers@[peer_index(peers@, p)]@ == p) by {
                            lemma_peer_index(peers@, p);
                        }
                    }
                    *self = UnackedBuffer { peers, queues };
                    proof {
                        assert(self@ =~= old(self)@.insert(
                            peer_id@,
                            old(self)@[peer_id@].remove(op_index as int),
                        ));
                    }
                    true
                } else {
                    false
                }
            },
            None => false,
        }
    }

    /// The operations that the peer has not confirmed; `None` for a peer
    /// without a queue.
    pub fn get_peer_ops(&self, peer_id: &str) -> (r: Option<&[(Operation, Instant, u32)]>)
        ensures
            match r {
                Some(ops) => self@.dom().contains(peer_id@) && ops@ == self@[peer_id@],
                None => !self@.dom().contains(peer_id@),
            },
    {
        proof {
            use_type_invariant(self);
        }
        match self.find(peer_id) {
            Some(i) => Some(self.queues[i].as_slice()),
            None => None,
        }
    }

    /// The peer's queue, to change it in place; `None` for a peer without a
    /// queue.
    pub fn get_peer_ops_mut(&mut self, peer_id: &str) -> (r: Option<
        &mut Vec<(Operation, Instant, u32)>,
    >)
        ensures
            match r {
                Some(ops) => old(self)@.dom().contains(peer_id@) && ops@ == old(self)@[peer_id@]
                    && final(self)@ == old(self)@.insert(peer_id@, final(ops)@) && final(self).total() == old(self).total() - ops@.len() + final(ops)@.len(),
                None => !old(self)@.dom().contains(peer_id@) && final(self)@ == old(self)@
                    && final(self).total() == old(self).total(),
            },
    {
        proof {
            use_type_invariant(&*self);
        }
        match self.find(peer_id) {
            Some(i) => {
                proof {
                    assert forall|q: Vec<(Operation, Instant, u32)>|
                        #![trigger self.queues@.update(i as int, q)]
                        queued(self.queues@.update(i as int, q)) == queued(self.queues@)
                            - self.queues@[i as int]@.len() + q@.len() by {
                        lemma_queued_update(self.queues@, i as int, q);
                    }
                }
                proof {
                    assert forall|p: Seq<char>|
                        #![trigger peer_index(self.peers@, p)]
                        peer_index(self.peers@, p) < self.peers@.len() && (peer_index(
                            self.peers@,
                            p,
                        ) >= 0 ==> self.peers@[peer_index(self.peers@, p)]@ == p) by {
                        lemma_peer_index(self.peers@, p);
                    }
                }
                Some(&mut self.queues[i])
            },
            None => None,
        }
    }

    /// The number of operations that the peer has not confirmed.
    pub fn peer_count(&self, peer_id: &str) -> (r: usize)
        ensures
            r == (if self@.dom().contains(peer_id@) {
                self@[peer_id@].len()
            } else {
                0
            }),
    {
        proof {
            use_type_invariant(self);
        }
        match self.find(peer_id) {
            Some(i) => self.queues[i].len(),
            None => 0,
        }
    }

    /// The number of operations of all peers; the highest number that there
    /// is where they are more.
    pub fn total_count(&self) -> (r: usize)
        ensures
            r == (if self.total() <= usize::MAX {
                self.total() as usize
            } else {
                usize::MAX
            }),
    {
        let mut sum: usize = 0;
        let mut i: usize = 0;
        proof {
            assert(self.queues@.subrange(0, 0) =~= Seq::<Vec<(Operation, Instant, u32)>>::empty());
        }
        while i < self.queues.len()
            invariant
                i <= self.queues@.len(),
                sum == (if queued(self.queues@.subrange(0, i as int)) <= usize::MAX {
                    queued(self.queues@.subrange(0, i as int)) as usize
                } else {
                    usize::MAX
                }),
            decreases self.queues@.len() - i,
        {
            proof {
                let p = self.queues@.subrange(0, i + 1);
                assert(p.drop_last() =~= self.queues@.subrange(0, i as int));
                assert(p.last() == self.queues@[i as int]);
            }
            let n: usize = self.queues[i].len();
            sum = if n > usize::MAX - sum {
                usize::MAX
            } else {
                sum + n
            };
            i = i + 1;
        }
        proof {
            assert(self.queues@.subrange(0, i as int) =~= self.queues@);
        }
        sum
    }

    /// The peers that have a queue, each once.
    pub fn peers(&self) -> (r: Vec<&String>)
        ensures
            forall|i: int| 0 <= i < r@.len() ==> self@.dom().contains((#[trigger] r@[i])@),
            forall|p: Seq<char>|
                self@.dom().contains(p) ==> exists|i: int| 0 <= i < r@.len() && (#[trigger] r@[i])@ == p,
            r@.len() == self@.dom().len(),
    {
        proof {
            use_type_invariant(self);
        }
        let mut out: Vec<&String> = Vec::new();
        let mut i: usize = 0;
        while i < self.peers.len()
            invariant
                i <= self.peers@.len(),
                out@.len() == i,
                forall|k: int| 0 <= k < i ==> (#[trigger] out@[k])@ == self.peers@[k]@,
            decreases self.peers@.len() - i,
        {
            out.push(&self.peers[i]);
            i = i + 1;
        }
        proof {
            assert forall|k: int| 0 <= k < out@.len() implies self@.dom().contains(
                (#[trigger] out@[k])@,
            ) by {
                lemma_distinct_peer(self.peers@, k);
            }
            assert forall|p: Seq<char>| self@.dom().contains(p) implies exists|k: int|
                0 <= k < out@.len() && (#[trigger] out@[k])@ == p by {
                lemma_peer_index(self.peers@, p);
                let k = peer_index(self.peers@, p);
                assert(out@[k]@ == p);
            }
            lemma_dom_len(self.peers@);
            assert(self@.dom() =~= Set::new(|p: Seq<char>| peer_index(self.peers@, p) >= 0));
        }
        out
    }

    /// Forgets the peer's queue.
    pub fn clear_peer(&mut self, peer_id: &str)
        ensures
            final(self)@ == old(self)@.remove(peer_id@),
            final(self).total() == old(self).total() - (if old(self)@.dom().contains(peer_id@) {
                old(self)@[peer_id@].len()
            } else {
                0
            }),
    {
        proof {
            use_type_invariant(&*self);
        }
        match self.find(peer_id) {
            Some(i) => {
                let mut taken = UnackedBuffer::new();
                core::mem::swap(&mut taken, self);
                let UnackedBuffer { peers, queues } = taken;
                let mut peers = peers;
                let mut queues = queues;
                let ghost old_peers = peers@;
                let ghost old_queues = queues@;
                let gone_peer = peers.remove(i);
                let gone = queues.remove(i);
                proof {
                    lemma_queued_remove(old_queues, i as int);
                    lemma_peers_remove(old_peers, i as int);
                    lemma_peer_index(old_peers, peer_id@);
                    assert forall|k: int| 0 <= k < queues@.len() implies #[trigger] queues@[k]
                        == old_queues[if k < i { k } else { k + 1 }] by {}
                    assert forall|p: Seq<char>|
                        #![trigger peer_index(peers@, p)]
                        peer_index(peers@, p) >= 0 implies queues@[peer_index(peers@, p)]
                            == old_queues[peer_index(old_peers, p)] by {
                        lemma_peer_index(old_peers, p);
                    }
                    lemma_distinct_peer(old_peers, i as int);
                }
                let ghost new_peers = peers@;
                let ghost new_queues = queues@;
                *self = UnackedBuffer { peers, queues };
                proof {
                    let after = self@;
                    let want = old(self)@.remove(peer_id@);
                    assert forall|p: Seq<char>|
                        #![trigger after.dom().contains(p)]
                        #![trigger want.dom().contains(p)]
                        #![trigger after[p]]
                        #![trigger want[p]]
                        after.dom().contains(p) == want.dom().contains(p) && (
                        after.dom().contains(p) ==> after[p] == want[p]) by {
                        lemma_peer_index(old_peers, p);
                        lemma_peer_index(new_peers, p);
                        let k = peer_index(old_peers, p);
                        let nk = peer_index(new_peers, p);
                        if nk >= 0 {
                            assert(new_queues[nk] == old_queues[if nk < i { nk } else { nk + 1 }]);
                        }
                    }
                    assert(after =~= want);
                }
            },
            None => {
                proof {
                    assert(self@ =~= old(self)@.remove(peer_id@));
                }
            },
        }
    }

    /// Forgets all queues.
    pub fn clear_all(&mut self)
        ensures
            final(self)@ == Map::<Seq<char>, Seq<(Operation, Instant, u32)>>::empty(),
            final(self).total() == 0,
    {
        let mut taken = UnackedBuffer::new();
        core::mem::swap(&mut taken, self);
        let UnackedBuffer { peers, queues } = taken;
        let mut peers = peers;
        let mut queues = queues;
        proof {
            assert(self@ =~= Map::<Seq<char>, Seq<(Operation, Instant, u32)>>::empty());
        }
    }
}

} // verus!
