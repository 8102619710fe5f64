//! Actors, dots, version vectors and replication operations.

use crate::text::{
    ascii_of, decimal, find_byte, find_char, is_digit, lemma_decimal, lemma_find_char,
    lemma_find_char_is, lemma_parse_decimal, numeral_body, parse_number, parse_unsigned,
    push_decimal,
};
pub use crate::version_vector::VersionVector;
use bytes::Bytes;
use crate::blob::{clone_all, contents};
use vstd::prelude::*;
use vstd::string::*;

verus! {

/// The identity of one writer: a protocol version, a node and an epoch.
///
/// On the wire it is four bytes: the version, the node's number in two bytes
/// with the high byte first, and the epoch. Actors are ordered as their bytes.
#[derive(Clone, Copy, Debug, PartialEq, Eq, Hash, PartialOrd, Ord, Structural)]
pub struct ActorId {
    pub version: u8,
    pub node_id: u16,
    pub epoch: u8,
}

/// Why a value is no actor identifier.
#[derive(Clone, Debug, PartialEq, Eq, Structural)]
pub enum ActorIdError {
    InvalidLength(usize),
    InvalidFormat,
}

impl ActorIdError {
    /// The message of the error.
    pub open spec fn text(self) -> Seq<char> {
        match self {
            ActorIdError::InvalidLength(len) => "Invalid ActorId length: "@ + decimal(len as nat)
                + " (expected 4)"@,
            ActorIdError::InvalidFormat => "Invalid ActorId format"@,
        }
    }

    /// Writes the error as a message.
    pub fn to_string(&self) -> (r: String)
        ensures
            r@ == self.text(),
    {
        match self {
            ActorIdError::InvalidLength(len) => {
                let mut out = "Invalid ActorId length: ".to_owned();
                push_decimal(&mut out, *len as u64);
                out.append(" (expected 4)");
                out
            },
            ActorIdError::InvalidFormat => "Invalid ActorId format".to_owned(),
        }
    }
}

impl ActorId {
    /// The four wire bytes of an actor.
    pub open spec fn spec_bytes(self) -> Seq<u8> {
        seq![self.version, (self.node_id / 256) as u8, (self.node_id % 256) as u8, self.epoch]
    }

    /// The four wire bytes read as one number, high byte first. Actors are
    /// ordered by it.
    pub open spec fn key(self) -> int {
        self.version as int * 16777216 + self.node_id as int * 256 + self.epoch as int
    }

    pub fn version(&self) -> (r: u8)
        ensures
            r == self.version,
    {
        self.version
    }

    pub fn node_id(&self) -> (r: u16)
        ensures
            r == self.node_id,
    {
        self.node_id
    }

    pub fn epoch(&self) -> (r: u8)
        ensures
            r == self.epoch,
    {
        self.epoch
    }

    /// The four wire bytes of the actor, from which `from_bytes` reads the
    /// actor back.
    pub fn bytes(&self) -> (r: [u8; 4])
        ensures
            r@ == self.spec_bytes(),
            actor_from_bytes(r@) == Ok::<ActorId, ActorIdError>(*self),
    {
        let r: [u8; 4] = [
            self.version,
            (self.node_id / 256) as u8,
            (self.node_id % 256) as u8,
            self.epoch,
        ];
        assert(r@ =~= self.spec_bytes());
        r
    }

    pub fn new(node_id: u16, epoch: u8) -> (r: Self)
        ensures
            r == (ActorId { version: 0, node_id, epoch }),
    {
        ActorId { version: 0, node_id, epoch }
    }

    pub fn new_with_version(version: u8, node_id: u16, epoch: u8) -> (r: Self)
        ensures
            r == (ActorId { version, node_id, epoch }),
    {
        ActorId { version, node_id, epoch }
    }

    pub fn from_node_id(node_id: u16) -> (r: Self)
        ensures
            r == (ActorId { version: 0, node_id, epoch: 0 }),
    {
        ActorId::new(node_id, 0)
    }

    /// Reads an actor from its four wire bytes.
    pub fn from_bytes(bytes: &[u8]) -> (r: Result<Self, ActorIdError>)
        ensures
            r == actor_from_bytes(bytes@),
            bytes@.len() == 4 ==> r is Ok && r->Ok_0.spec_bytes() == bytes@,
    {
        if bytes.len() != 4 {
            return Err(ActorIdError::InvalidLength(bytes.len()));
        }
        let node_id: u16 = (bytes[1] as u16) * 256 + (bytes[2] as u16);
        let a = ActorId { version: bytes[0], node_id, epoch: bytes[3] };
        assert(a.spec_bytes() =~= bytes@);
        Ok(a)
    }

    /// The text of an actor: `v`, the version, a colon, the node's number, a
    /// colon and the epoch.
    pub open spec fn text(self) -> Seq<char> {
        seq!['v'] + decimal(self.version as nat) + seq![':'] + decimal(self.node_id as nat)
            + seq![':'] + decimal(self.epoch as nat)
    }

    /// Writes the actor as text, from which `from_str` reads the actor back.
    pub fn to_string(&self) -> (r: String)
        ensures
            r@ == self.text(),
            parse_actor(r@) == Some(*self),
    {
        let mut out = String::new();
        self.push_text(&mut out);
        proof {
            assert(out@ =~= self.text());
            lemma_parse_actor_text(*self);
        }
        out
    }

    /// Appends the actor's text to `out`.
    pub fn push_text(&self, out: &mut String)
        ensures
            final(out)@ == old(out)@ + self.text(),
    {
        proof {
            reveal_strlit("v");
            reveal_strlit(":");
        }
        out.append("v");
        push_decimal(out, self.version as u64);
        out.append(":");
        push_decimal(out, self.node_id as u64);
        out.append(":");
        push_decimal(out, self.epoch as u64);
        assert(out@ =~= old(out)@ + self.text());
    }

    /// Reads an actor from its text. The numbers are read as decimal
    /// numerals, each with an optional `+` before its digits.
    pub fn from_str(s: &str) -> (r: Result<Self, ActorIdError>)
        ensures
            r == match parse_actor(s@) {
                Some(a) => Ok::<ActorId, ActorIdError>(a),
                None => Err::<ActorId, ActorIdError>(ActorIdError::InvalidFormat),
            },
    {
        if !s.is_ascii() {
            proof {
                if parse_actor(s@) is Some {
                    lemma_actor_text_is_ascii(s@);
                }
            }
            return Err(ActorIdError::InvalidFormat);
        }
        let bytes = s.as_bytes();
        proof {
            vstd::utf8::is_ascii_chars_encode_utf8(s@);
            assert(s@.subrange(0, s@.len() as int) =~= s@);
        }
        match parse_actor_bytes(bytes, 0, bytes.len(), Ghost(s@)) {
            Some(a) => Ok(a),
            None => Err(ActorIdError::InvalidFormat),
        }
    }

    /// The actor's place in the order of actors.
    pub fn sort_key(&self) -> (r: u32)
        ensures
            r == self.key(),
    {
        (self.version as u32) * 16777216 + (self.node_id as u32) * 256 + (self.epoch as u32)
    }
}

/// The actor that a text names: `v`, the version, a colon, the node's number,
/// a colon and the epoch, each number a decimal numeral; nothing where the
/// text has another shape or a number is out of range.
pub open spec fn parse_actor(s: Seq<char>) -> Option<ActorId> {
    let i = find_char(s, ':', 0);
    let j = find_char(s, ':', i + 1);
    let k = find_char(s, ':', j + 1);
    if i < s.len() && j < s.len() && k >= s.len() && i >= 1 && s[0] == 'v' {
        match (
            parse_unsigned(s.subrange(1, i), 255),
            parse_unsigned(s.subrange(i + 1, j), 65535),
            parse_unsigned(s.subrange(j + 1, s.len() as int), 255),
        ) {
            (Some(version), Some(node_id), Some(epoch)) => Some(
                ActorId { version: version as u8, node_id: node_id as u16, epoch: epoch as u8 },
            ),
            _ => None,
        }
    } else {
        None
    }
}

/// Reads the actor named by `bytes` from `from` up to `to`.
pub fn parse_actor_bytes(bytes: &[u8], from: usize, to: usize, Ghost(chars): Ghost<Seq<char>>) -> (r:
    Option<ActorId>)
    requires
        ascii_of(bytes@, chars),
        from <= to <= bytes.len(),
    ensures
        r == parse_actor(chars.subrange(from as int, to as int)),
{
    let ghost s = chars.subrange(from as int, to as int);
    let i: usize = find_byte(bytes, 58, from, to, Ghost(chars));
    proof {
        lemma_find_char_is(s, ':', 0, i - from);
    }
    if i >= to || i == from || bytes[from] != 118 {
        proof {
            if i < to && i > from {
                assert(s[0] == chars[from as int]);
            }
        }
        return None;
    }
    assert(s[0] == chars[from as int]);
    let j: usize = find_byte(bytes, 58, i + 1, to, Ghost(chars));
    proof {
        lemma_find_char_is(s, ':', i - from + 1, j - from);
    }
    if j >= to {
        return None;
    }
    let k: usize = find_byte(bytes, 58, j + 1, to, Ghost(chars));
    proof {
        lemma_find_char_is(s, ':', j - from + 1, k - from);
    }
    if k < to {
        return None;
    }
    proof {
        assert(s.subrange(1, i - from) =~= chars.subrange(from + 1, i as int));
        assert(s.subrange(i - from + 1, j - from) =~= chars.subrange(i + 1, j as int));
        assert(s.subrange(j - from + 1, s.len() as int) =~= chars.subrange(j + 1, to as int));
    }
    let version = parse_number(bytes, from + 1, i, 255, Ghost(chars));
    let node_id = parse_number(bytes, i + 1, j, 65535, Ghost(chars));
    let epoch = parse_number(bytes, j + 1, to, 255, Ghost(chars));
    match (version, node_id, epoch) {
        (Some(v), Some(n), Some(e)) => Some(
            ActorId { version: v as u8, node_id: n as u16, epoch: e as u8 },
        ),
        _ => None,
    }
}

/// A text that is read as a numeral holds ASCII characters only.
pub proof fn lemma_numeral_is_ascii(s: Seq<char>, max: nat)
    requires
        parse_unsigned(s, max) is Some,
    ensures
        forall|i: int| 0 <= i < s.len() ==> '\0' <= #[trigger] s[i] && s[i] <= '\u{7f}',
{
    let body = numeral_body(s);
    assert forall|i: int| 0 <= i < s.len() implies '\0' <= #[trigger] s[i] && s[i] <= '\u{7f}' by {
        if s[0] == '+' {
            if i > 0 {
                assert(is_digit(body[i - 1]));
            }
        } else {
            assert(is_digit(body[i]));
        }
    }
}

/// A text that names an actor holds ASCII characters only.
pub proof fn lemma_actor_text_is_ascii(s: Seq<char>)
    requires
        parse_actor(s) is Some,
    ensures
        forall|i: int| 0 <= i < s.len() ==> '\0' <= #[trigger] s[i] && s[i] <= '\u{7f}',
{
    let i = find_char(s, ':', 0);
    lemma_find_char(s, ':', 0);
    let j = find_char(s, ':', i + 1);
    lemma_find_char(s, ':', i + 1);
    let part_version = s.subrange(1, i);
    let part_node = s.subrange(i + 1, j);
    let part_epoch = s.subrange(j + 1, s.len() as int);
    lemma_numeral_is_ascii(part_version, 255);
    lemma_numeral_is_ascii(part_node, 65535);
    lemma_numeral_is_ascii(part_epoch, 255);
    assert forall|k: int| 0 <= k < s.len() implies '\0' <= #[trigger] s[k] && s[k] <= '\u{7f}' by {
        if k == 0 || k == i || k == j {
        } else if k < i {
            assert(s[k] == part_version[k - 1]);
        } else if k < j {
            assert(s[k] == part_node[k - i - 1]);
        } else {
            assert(s[k] == part_epoch[k - j - 1]);
        }
    }
}

/// An actor is read back from its text.
pub proof fn lemma_parse_actor_text(a: ActorId)
    ensures
        parse_actor(a.text()) == Some(a),
{
    let v = decimal(a.version as nat);
    let n = decimal(a.node_id as nat);
    let e = decimal(a.epoch as nat);
    let s = a.text();
    lemma_decimal(a.version as nat);
    lemma_decimal(a.node_id as nat);
    lemma_decimal(a.epoch as nat);
    lemma_parse_decimal(a.version as nat, 255);
    lemma_parse_decimal(a.node_id as nat, 65535);
    lemma_parse_decimal(a.epoch as nat, 255);
    let i = 1 + v.len() as int;
    let j = i + 1 + n.len() as int;
    assert(s.len() == j + 1 + e.len());
    assert forall|k: int| 1 <= k < i implies s[k] != ':' by {
        assert(s[k] == v[k - 1]);
        assert(is_digit(v[k - 1]));
    }
    assert forall|k: int| i + 1 <= k < j implies s[k] != ':' by {
        assert(s[k] == n[k - i - 1]);
        assert(is_digit(n[k - i - 1]));
    }
    assert forall|k: int| j + 1 <= k < s.len() implies s[k] != ':' by {
        assert(s[k] == e[k - j - 1]);
        assert(is_digit(e[k - j - 1]));
    }
    assert(s[0] == 'v');
    assert(s[i] == ':');
    assert(s[j] == ':');
    lemma_find_char_is(s, ':', 0, i);
    lemma_find_char_is(s, ':', i + 1, j);
    lemma_find_char_is(s, ':', j + 1, s.len() as int);
    assert(s.subrange(1, i) =~= v);
    assert(s.subrange(i + 1, j) =~= n);
    assert(s.subrange(j + 1, s.len() as int) =~= e);
}

/// The actor that four wire bytes stand for.
pub open spec fn actor_of_bytes(b: Seq<u8>) -> ActorId {
    ActorId { version: b[0], node_id: (b[1] as int * 256 + b[2] as int) as u16, epoch: b[3] }
}

/// The actor that wire bytes stand for; they must be four.
pub open spec fn actor_from_bytes(b: Seq<u8>) -> Result<ActorId, ActorIdError> {
    if b.len() == 4 {
        Ok(actor_of_bytes(b))
    } else {
        Err(ActorIdError::InvalidLength(b.len() as usize))
    }
}

/// An actor is read back from its wire bytes.
pub proof fn lemma_actor_bytes_roundtrip(a: ActorId)
    ensures
        actor_from_bytes(a.spec_bytes()) == Ok::<ActorId, ActorIdError>(a),
        a.spec_bytes().len() == 4,
{
}

impl std::str::FromStr for ActorId {
    type Err = ActorIdError;

    /// Reads an actor from its text, as the method of the same name does.
    fn from_str(s: &str) -> (r: Result<Self, ActorIdError>)
        ensures
            r == match parse_actor(s@) {
                Some(a) => Ok::<ActorId, ActorIdError>(a),
                None => Err::<ActorId, ActorIdError>(ActorIdError::InvalidFormat),
            },
    {
        ActorId::from_str(s)
    }
}

/// One update event: the actor that made it and the actor's counter then.
/// Counters start at one; zero stands for "never seen".
#[derive(Clone, Copy, Debug, PartialEq, Eq, Hash, Structural)]
pub struct Dot {
    pub actor_id: ActorId,
    pub counter: u64,
}

impl Dot {
    pub fn new(actor_id: ActorId, counter: u64) -> (r: Self)
        ensures
            r == (Dot { actor_id, counter }),
    {
        Dot { actor_id, counter }
    }

    /// A dot from the wire bytes of its actor and a counter.
    pub fn from_parts(actor_id: Vec<u8>, counter: u64) -> (r: Result<Self, ActorIdError>)
        ensures
            r == match actor_from_bytes(actor_id@) {
                Ok(a) => Ok::<Dot, ActorIdError>(Dot { actor_id: a, counter }),
                Err(e) => Err::<Dot, ActorIdError>(e),
            },
    {
        match ActorId::from_bytes(actor_id.as_slice()) {
            Ok(a) => Ok(Dot { actor_id: a, counter }),
            Err(e) => Err(e),
        }
    }
}

/// What an operation does to the elements it names.
#[derive(Debug, PartialEq)]
pub enum OpType {
    /// The elements were added under `dot`; `removed_dots` are the dots that
    /// the add displaced where it was made.
    Add { elements: Vec<Bytes>, dot: Dot, removed_dots: Vec<Dot> },
    /// The elements were removed; `removed_dots` are the dots that supported
    /// them where the remove was made. `dot` serves causality only.
    Remove { elements: Vec<Bytes>, dot: Dot, removed_dots: Vec<Dot> },
}

/// One write, as it is sent to the other replicas.
#[derive(Debug, PartialEq)]
pub struct Operation {
    pub set_name: String,
    pub op_type: OpType,
    /// The version vector of the replica that made the write, as it was just
    /// before the write.
    pub context: VersionVector,
}

/// An operation as plain values.
pub struct OpView {
    pub set_name: Seq<char>,
    pub is_add: bool,
    pub elements: Seq<Seq<u8>>,
    pub dot: Dot,
    pub removed_dots: Seq<Dot>,
    pub context: Map<ActorId, u64>,
}

impl OpType {
    pub open spec fn is_add(self) -> bool {
        self is Add
    }

    pub open spec fn elements(self) -> Seq<Seq<u8>> {
        match self {
            OpType::Add { elements, .. } => contents(elements@),
            OpType::Remove { elements, .. } => contents(elements@),
        }
    }

    pub open spec fn spec_dot(self) -> Dot {
        match self {
            OpType::Add { dot, .. } => dot,
            OpType::Remove { dot, .. } => dot,
        }
    }

    pub open spec fn removed_dots(self) -> Seq<Dot> {
        match self {
            OpType::Add { removed_dots, .. } => removed_dots@,
            OpType::Remove { removed_dots, .. } => removed_dots@,
        }
    }

    /// The number of dots that the operation lists.
    pub fn removed_dots_len(&self) -> (r: usize)
        ensures
            r == self.removed_dots().len(),
    {
        match self {
            OpType::Add { removed_dots, .. } => removed_dots.len(),
            OpType::Remove { removed_dots, .. } => removed_dots.len(),
        }
    }

    /// The dot of the write.
    pub fn dot(&self) -> (r: Dot)
        ensures
            r == self.spec_dot(),
    {
        match self {
            OpType::Add { dot, .. } => *dot,
            OpType::Remove { dot, .. } => *dot,
        }
    }
}

/// Copies the dots.
pub fn clone_dots(dots: &[Dot]) -> (r: Vec<Dot>)
    ensures
        r@ == dots@,
{
    let mut out: Vec<Dot> = Vec::new();
    let mut i: usize = 0;
    while i < dots.len()
        invariant
            i <= dots@.len(),
            out@ == dots@.subrange(0, i as int),
        decreases dots@.len() - i,
    {
        out.push(dots[i]);
        assert(out@ =~= dots@.subrange(0, i + 1));
        i = i + 1;
    }
    assert(dots@.subrange(0, i as int) =~= dots@);
    out
}

impl Clone for OpType {
    fn clone(&self) -> (r: Self)
        ensures
            r.is_add() == self.is_add(),
            r.elements() == self.elements(),
            r.spec_dot() == self.spec_dot(),
            r.removed_dots() == self.removed_dots(),
    {
        match self {
            OpType::Add { elements, dot, removed_dots } => OpType::Add {
                elements: clone_all(elements.as_slice()),
                dot: *dot,
                removed_dots: clone_dots(removed_dots.as_slice()),
            },
            OpType::Remove { elements, dot, removed_dots } => OpType::Remove {
                elements: clone_all(elements.as_slice()),
                dot: *dot,
                removed_dots: clone_dots(removed_dots.as_slice()),
            },
        }
    }
}

impl View for Operation {
    type V = OpView;

    open spec fn view(&self) -> OpView {
        OpView {
            set_name: self.set_name@,
            is_add: self.op_type.is_add(),
            elements: self.op_type.elements(),
            dot: self.op_type.spec_dot(),
            removed_dots: self.op_type.removed_dots(),
            context: self.context@,
        }
    }
}

impl Clone for Operation {
    fn clone(&self) -> (r: Self)
        ensures
            r@ == self@,
    {
        Operation {
            set_name: self.set_name.clone(),
            op_type: self.op_type.clone(),
            context: self.context.clone(),
        }
    }
}

} // verus!
