//! Operations as they are laid out for the wire, and the way from an
//! operation to that layout and back.

use crate::blob::{bytes_as_slice, bytes_content, bytes_from_slice, clone_all, contents};
use crate::types::{
    actor_of_bytes, lemma_actor_bytes_roundtrip, ActorId, Dot, OpType, OpView, Operation,
    VersionVector,
};
use crate::version_vector::{dots_map, has_order, lemma_sorted_dots_of, sorted_dots};
use bytes::Bytes;
use vstd::prelude::*;

verus! {

/// A dot on the wire: the actor's bytes and the counter.
#[derive(Debug, Clone, PartialEq)]
pub struct ProtoDot {
    pub actor_id: Bytes,
    pub counter: u64,
}

/// A version vector on the wire.
#[derive(Debug, Clone, PartialEq)]
pub struct ProtoVersionVector {
    pub entries: Vec<ProtoDot>,
}

/// An add or a remove on the wire.
#[derive(Debug, Clone, PartialEq)]
pub struct ProtoBody {
    pub elements: Vec<Bytes>,
    pub dot: Option<ProtoDot>,
    pub removed_dots: Vec<ProtoDot>,
}

#[derive(Debug, Clone, PartialEq)]
pub enum ProtoOpType {
    Add(ProtoBody),
    Remove(ProtoBody),
}

/// An operation on the wire. A field that the sender left out is `None`.
#[derive(Debug, Clone, PartialEq)]
pub struct ProtoOperation {
    pub set_name: String,
    pub context: Option<ProtoVersionVector>,
    pub op_type: Option<ProtoOpType>,
}

pub struct ProtoDotView {
    pub actor_id: Seq<u8>,
    pub counter: u64,
}

pub struct ProtoBodyView {
    pub is_add: bool,
    pub elements: Seq<Seq<u8>>,
    pub dot: Option<ProtoDotView>,
    pub removed_dots: Seq<ProtoDotView>,
}

pub struct ProtoOperationView {
    pub set_name: Seq<char>,
    pub context: Option<Seq<ProtoDotView>>,
    pub body: Option<ProtoBodyView>,
}

impl View for ProtoDot {
    type V = ProtoDotView;

    open spec fn view(&self) -> ProtoDotView {
        ProtoDotView { actor_id: bytes_content(self.actor_id), counter: self.counter }
    }
}

pub open spec fn proto_dots_view(s: Seq<ProtoDot>) -> Seq<ProtoDotView> {
    s.map_values(|d: ProtoDot| d@)
}

impl ProtoBody {
    pub open spec fn body_view(self, is_add: bool) -> ProtoBodyView {
        ProtoBodyView {
            is_add,
            elements: contents(self.elements@),
            dot: match self.dot {
                Some(d) => Some(d@),
                None => None,
            },
            removed_dots: proto_dots_view(self.removed_dots@),
        }
    }
}

impl View for ProtoOperation {
    type V = ProtoOperationView;

    open spec fn view(&self) -> ProtoOperationView {
        ProtoOperationView {
            set_name: self.set_name@,
            context: match self.context {
                Some(vv) => Some(proto_dots_view(vv.entries@)),
                None => None,
            },
            body: match self.op_type {
                Some(ProtoOpType::Add(body)) => Some(body.body_view(true)),
                Some(ProtoOpType::Remove(body)) => Some(body.body_view(false)),
                None => None,
            },
        }
    }
}

// ----- what the layout stands for -----
pub open spec fn dot_to_wire(d: Dot) -> ProtoDotView {
    ProtoDotView { actor_id: d.actor_id.spec_bytes(), counter: d.counter }
}

/// The dot that a dot on the wire stands for; its actor must have four
/// bytes.
pub open spec fn dot_from_wire(p: ProtoDotView) -> Option<Dot> {
    if p.actor_id.len() == 4 {
        Some(Dot { actor_id: actor_of_bytes(p.actor_id), counter: p.counter })
    } else {
        None
    }
}

pub open spec fn dots_to_wire(s: Seq<Dot>) -> Seq<ProtoDotView> {
    s.map_values(|d: Dot| dot_to_wire(d))
}

/// The dots that dots on the wire stand for, all of them or nothing.
pub open spec fn dots_from_wire(ps: Seq<ProtoDotView>) -> Option<Seq<Dot>>
    decreases ps.len(),
{
    if ps.len() == 0 {
        Some(Seq::empty())
    } else {
        match (dots_from_wire(ps.drop_last()), dot_from_wire(ps.last())) {
            (Some(ds), Some(d)) => Some(ds.push(d)),
            _ => None,
        }
    }
}

/// The dots that dots on the wire stand for, without those that stand for
/// none.
pub open spec fn valid_dots_from_wire(ps: Seq<ProtoDotView>) -> Seq<Dot>
    decreases ps.len(),
{
    if ps.len() == 0 {
        Seq::empty()
    } else {
        match dot_from_wire(ps.last()) {
            Some(d) => valid_dots_from_wire(ps.drop_last()).push(d),
            None => valid_dots_from_wire(ps.drop_last()),
        }
    }
}

/// An operation laid out for the wire. The context's entries stand in the
/// order of their actors.
pub open spec fn op_to_wire(op: OpView) -> ProtoOperationView {
    ProtoOperationView {
        set_name: op.set_name,
        context: Some(dots_to_wire(sorted_dots(op.context))),
        body: Some(
            ProtoBodyView {
                is_add: op.is_add,
                elements: op.elements,
                dot: Some(dot_to_wire(op.dot)),
                removed_dots: dots_to_wire(op.removed_dots),
            },
        ),
    }
}

/// The operation that a layout stands for: nothing where the context, the
/// body or the dot is missing, or where the dot or an entry of the context
/// names no actor. A removed dot that names no actor is passed over.
pub open spec fn op_from_wire(p: ProtoOperationView) -> Option<OpView> {
    match (p.context, p.body) {
        (Some(context), Some(body)) => match (dots_from_wire(context), body.dot) {
            (Some(entries), Some(dot)) => match dot_from_wire(dot) {
                Some(d) => Some(
                    OpView {
                        set_name: p.set_name,
                        is_add: body.is_add,
                        elements: body.elements,
                        dot: d,
                        removed_dots: valid_dots_from_wire(body.removed_dots),
                        context: dots_map(entries),
                    },
                ),
                None => None,
            },
            _ => None,
        },
        _ => None,
    }
}

pub proof fn lemma_dot_wire_roundtrip(d: Dot)
    ensures
        dot_from_wire(dot_to_wire(d)) == Some(d),
{
    lemma_actor_bytes_roundtrip(d.actor_id);
}

pub proof fn lemma_dots_wire_roundtrip(s: Seq<Dot>)
    ensures
        dots_from_wire(dots_to_wire(s)) == Some(s),
        valid_dots_from_wire(dots_to_wire(s)) == s,
    decreases s.len(),
{
    if s.len() > 0 {
        let w = dots_to_wire(s);
        assert(w.drop_last() =~= dots_to_wire(s.drop_last()));
        assert(w.last() == dot_to_wire(s.last()));
        lemma_dots_wire_roundtrip(s.drop_last());
        lemma_dot_wire_roundtrip(s.last());
        assert(s.drop_last().push(s.last()) =~= s);
    } else {
        assert(s =~= Seq::<Dot>::empty());
    }
}

/// An operation is read back from its layout.
pub proof fn lemma_op_wire_roundtrip(op: OpView)
    requires
        has_order(op.context),
    ensures
        op_from_wire(op_to_wire(op)) == Some(op),
{
    lemma_sorted_dots_of(op.context);
    lemma_dots_wire_roundtrip(sorted_dots(op.context));
    lemma_dots_wire_roundtrip(op.removed_dots);
    lemma_dot_wire_roundtrip(op.dot);
}

// ----- the conversions -----
pub fn dot_to_proto(dot: &Dot) -> (r: ProtoDot)
    ensures
        r@ == dot_to_wire(*dot),
{
    let bytes = dot.actor_id.bytes();
    ProtoDot { actor_id: bytes_from_slice(bytes.as_slice()), counter: dot.counter }
}

pub fn proto_to_dot(proto: &ProtoDot) -> (r: Option<Dot>)
    ensures
        r == dot_from_wire(proto@),
{
    match ActorId::from_bytes(bytes_as_slice(&proto.actor_id)) {
        Ok(actor_id) => Some(Dot { actor_id, counter: proto.counter }),
        Err(_) => None,
    }
}

fn dots_to_proto(dots: &[Dot]) -> (r: Vec<ProtoDot>)
    ensures
        proto_dots_view(r@) == dots_to_wire(dots@),
{
    let mut out: Vec<ProtoDot> = Vec::new();
    let mut i: usize = 0;
    while i < dots.len()
        invariant
            i <= dots@.len(),
            out@.len() == i,
            forall|k: int| 0 <= k < i ==> (#[trigger] out@[k])@ == dot_to_wire(dots@[k]),
        decreases dots@.len() - i,
    {
        out.push(dot_to_proto(&dots[i]));
        i = i + 1;
    }
    assert(proto_dots_view(out@) =~= dots_to_wire(dots@));
    out
}

pub fn version_vector_to_proto(vv: &VersionVector) -> (r: ProtoVersionVector)
    ensures
        proto_dots_view(r.entries@) == dots_to_wire(sorted_dots(vv@)),
{
    let dots = vv.dots();
    ProtoVersionVector { entries: dots_to_proto(dots.as_slice()) }
}

pub fn proto_to_version_vector(proto: &ProtoVersionVector) -> (r: Option<VersionVector>)
    ensures
        match dots_from_wire(proto_dots_view(proto.entries@)) {
            Some(entries) => r is Some && r->0@ == dots_map(entries),
            None => r is None,
        },
{
    let ghost all = proto_dots_view(proto.entries@);
    let mut dots: Vec<Dot> = Vec::new();
    let mut i: usize = 0;
    proof {
        assert(all.subrange(0, 0) =~= Seq::<ProtoDotView>::empty());
    }
    while i < proto.entries.len()
        invariant
            i <= proto.entries@.len(),
            all == proto_dots_view(proto.entries@),
            dots_from_wire(all.subrange(0, i as int)) == Some(dots@),
        decreases proto.entries@.len() - i,
    {
        proof {
            let grown = all.subrange(0, i + 1);
            assert(grown.drop_last() =~= all.subrange(0, i as int));
            assert(grown.last() == proto.entries@[i as int]@);
        }
        match proto_to_dot(&proto.entries[i]) {
            Some(d) => {
                dots.push(d);
            },
            None => {
                proof {
                    lemma_dots_from_wire_prefix(all, i + 1);
                }
                return None;
            },
        }
        i = i + 1;
    }
    proof {
        assert(all.subrange(0, i as int) =~= all);
    }
    Some(VersionVector::from_dots(dots.as_slice()))
}

/// Where the dots at the start of a list do not all stand for dots, the
/// dots of the list do not.
pub proof fn lemma_dots_from_wire_prefix(ps: Seq<ProtoDotView>, n: int)
    requires
        0 <= n <= ps.len(),
        dots_from_wire(ps.subrange(0, n)) is None,
    ensures
        dots_from_wire(ps) is None,
    decreases ps.len(),
{
    if n == ps.len() {
        assert(ps.subrange(0, n) =~= ps);
    } else {
        assert(ps.drop_last().subrange(0, n) =~= ps.subrange(0, n));
        lemma_dots_from_wire_prefix(ps.drop_last(), n);
    }
}

fn valid_dots(protos: &Vec<ProtoDot>) -> (r: Vec<Dot>)
    ensures
        r@ == valid_dots_from_wire(proto_dots_view(protos@)),
{
    let ghost all = proto_dots_view(protos@);
    let mut dots: Vec<Dot> = Vec::new();
    let mut i: usize = 0;
    proof {
        assert(all.subrange(0, 0) =~= Seq::<ProtoDotView>::empty());
    }
    while i < protos.len()
        invariant
            i <= protos@.len(),
            all == proto_dots_view(protos@),
            dots@ == valid_dots_from_wire(all.subrange(0, i as int)),
        decreases protos@.len() - i,
    {
        proof {
            let grown = all.subrange(0, i + 1);
            assert(grown.drop_last() =~= all.subrange(0, i as int));
            assert(grown.last() == protos@[i as int]@);
        }
        match proto_to_dot(&protos[i]) {
            Some(d) => {
                dots.push(d);
            },
            None => {},
        }
        i = i + 1;
    }
    proof {
        assert(all.subrange(0, i as int) =~= all);
    }
    dots
}

/// Lays an operation out for the wire.
pub fn operation_to_proto(op: &Operation) -> (r: ProtoOperation)
    ensures
        r@ == op_to_wire(op@),
{
    let context = version_vector_to_proto(&op.context);
    let op_type = match &op.op_type {
        OpType::Add { elements, dot, removed_dots } => ProtoOpType::Add(
            ProtoBody {
                elements: clone_all(elements.as_slice()),
                dot: Some(dot_to_proto(dot)),
                removed_dots: dots_to_proto(removed_dots.as_slice()),
            },
        ),
        OpType::Remove { elements, dot, removed_dots } => ProtoOpType::Remove(
            ProtoBody {
                elements: clone_all(elements.as_slice()),
                dot: Some(dot_to_proto(dot)),
                removed_dots: dots_to_proto(removed_dots.as_slice()),
            },
        ),
    };
    ProtoOperation { set_name: op.set_name.clone(), context: Some(context), op_type: Some(op_type) }
}

fn body_to_parts(body: &ProtoBody, is_add: bool) -> (r: Option<(Vec<Bytes>, Dot, Vec<Dot>)>)
    ensures
        match body.body_view(is_add).dot {
            Some(p) => match dot_from_wire(p) {
                Some(d) => {
                    &&& r matches Some(parts)
                    &&& contents(parts.0@) == contents(body.elements@)
                    &&& parts.1 == d
                    &&& parts.2@ == valid_dots_from_wire(proto_dots_view(body.removed_dots@))
                },
                None => r is None,
            },
            None => r is None,
        },
{
    match &body.dot {
        Some(p) => match proto_to_dot(p) {
            Some(d) => Some((clone_all(body.elements.as_slice()), d, valid_dots(&body.removed_dots))),
            None => None,
        },
        None => None,
    }
}

/// Reads an operation from its layout.
pub fn proto_to_operation(proto: &ProtoOperation) -> (r: Option<Operation>)
    ensures
        match op_from_wire(proto@) {
            Some(op) => r is Some && r->0@ == op,
            None => r is None,
        },
{
    let context = match &proto.context {
        Some(vv) => match proto_to_version_vector(vv) {
            Some(context) => context,
            None => {
                return None;
            },
        },
        None => {
            return None;
        },
    };
    let op_type = match &proto.op_type {
        Some(ProtoOpType::Add(body)) => match body_to_parts(body, true) {
            Some((elements, dot, removed_dots)) => OpType::Add { elements, dot, removed_dots },
            None => {
                return None;
            },
        },
        Some(ProtoOpType::Remove(body)) => match body_to_parts(body, false) {
            Some((elements, dot, removed_dots)) => OpType::Remove { elements, dot, removed_dots },
            None => {
                return None;
            },
        },
        None => {
            return None;
        },
    };
    Some(Operation { set_name: proto.set_name.clone(), op_type, context })
}

} // verus!
