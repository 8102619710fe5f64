//! One replica as plain values: its actor, its version vector and its store,
//! and what a local write and an operation from another replica do to it.

use crate::store_model::StoreView;
use crate::types::{ActorId, Dot, OpView};
use crate::version_vector::{vv_descends, vv_get, vv_increment, vv_update};
use vstd::prelude::*;

verus! {

/// The state of one replica.
pub struct ReplicaView {
    pub actor: ActorId,
    pub vv: Map<ActorId, u64>,
    pub store: StoreView,
}

impl ReplicaView {
    /// The store is in order and the version vector has seen all that the
    /// store's version vector has seen.
    pub open spec fn wf(self) -> bool {
        &&& self.store.wf()
        &&& vv_descends(self.vv, self.store.vv)
    }

    /// The dot that the replica's next write gets.
    pub open spec fn next_dot(self) -> Dot {
        Dot { actor_id: self.actor, counter: (vv_get(self.vv, self.actor) + 1) as u64 }
    }

    /// The replica after a local add.
    pub open spec fn local_add(self, set: Seq<char>, vs: Seq<Seq<u8>>) -> ReplicaView {
        ReplicaView {
            actor: self.actor,
            vv: vv_increment(self.vv, self.actor),
            store: self.store.add_elements(set, vs, self.next_dot()),
        }
    }

    /// The operation that a local add sends out.
    pub open spec fn local_add_op(self, set: Seq<char>, vs: Seq<Seq<u8>>) -> OpView {
        OpView {
            set_name: set,
            is_add: true,
            elements: vs,
            dot: self.next_dot(),
            removed_dots: self.store.add_elements_displaced(set, vs, self.next_dot()),
            context: self.vv,
        }
    }

    /// The replica after a local remove.
    pub open spec fn local_remove(self, set: Seq<char>, vs: Seq<Seq<u8>>) -> ReplicaView {
        ReplicaView {
            actor: self.actor,
            vv: vv_increment(self.vv, self.actor),
            store: self.store.remove_elements(set, vs, self.next_dot()),
        }
    }

    /// The operation that a local remove sends out, where it removed
    /// anything.
    pub open spec fn local_remove_op(self, set: Seq<char>, vs: Seq<Seq<u8>>) -> OpView {
        OpView {
            set_name: set,
            is_add: false,
            elements: vs,
            dot: self.next_dot(),
            removed_dots: self.store.remove_elements_displaced(set, vs),
            context: self.vv,
        }
    }

    /// The replica has seen all that the operation's maker had seen.
    pub open spec fn ready_for(self, op: OpView) -> bool {
        vv_descends(self.vv, op.context)
    }

    /// The replica has not seen the operation's dot.
    pub open spec fn is_new(self, op: OpView) -> bool {
        op.dot.counter > vv_get(self.vv, op.dot.actor_id)
    }

    /// The store after the operation has been applied to it.
    pub open spec fn store_after(self, op: OpView) -> StoreView {
        if op.is_add {
            self.store.replicate_add(op.set_name, op.elements, op.removed_dots, op.dot)
        } else {
            self.store.replicate_remove(op.set_name, op.elements, op.removed_dots, op.dot)
        }
    }

    /// The replica after an operation from another replica has been handed
    /// to it: unchanged where it is not ready for the operation or has seen
    /// its dot.
    pub open spec fn apply_remote(self, op: OpView) -> ReplicaView {
        if self.ready_for(op) && self.is_new(op) {
            ReplicaView {
                actor: self.actor,
                vv: vv_update(self.vv, op.dot.actor_id, op.dot.counter),
                store: self.store_after(op),
            }
        } else {
            self
        }
    }
}

} // verus!
