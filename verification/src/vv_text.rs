//! The text form of a version vector: the entries in the order of their
//! actors, each written as the actor's text, a colon and the counter, with
//! commas between them. The empty vector is the empty text.

use crate::text::{
    ascii_of, decimal, find_byte, is_digit, lemma_decimal, lemma_parse_decimal, lemma_rfind_char,
    lemma_rfind_char_is, parse_number, parse_unsigned, push_decimal, rfind_byte, rfind_char,
};
use crate::types::{
    lemma_actor_text_is_ascii, lemma_numeral_is_ascii, lemma_parse_actor_text, parse_actor,
    parse_actor_bytes, ActorId, Dot,
};
use crate::version_vector::{dots_map, lemma_dots_map_empty, ordered, sorted_dots, VersionVector};
use vstd::prelude::*;
use vstd::string::*;

verus! {

/// The text of one entry.
pub open spec fn dot_text(d: Dot) -> Seq<char> {
    d.actor_id.text() + seq![':'] + decimal(d.counter as nat)
}

/// The text of entries, in the order given.
pub open spec fn dots_text(s: Seq<Dot>) -> Seq<char>
    decreases s.len(),
{
    if s.len() == 0 {
        Seq::empty()
    } else if s.len() == 1 {
        dot_text(s[0])
    } else {
        dots_text(s.drop_last()) + seq![','] + dot_text(s.last())
    }
}

/// The text of a version vector.
pub open spec fn vv_text(m: Map<ActorId, u64>) -> Seq<char> {
    dots_text(sorted_dots(m))
}

/// The entry that a text names: an actor, then the last colon of the text,
/// then a counter.
pub open spec fn parse_dot(s: Seq<char>) -> Option<Dot> {
    let k = rfind_char(s, ':', s.len() as int);
    if k < 0 {
        None
    } else {
        match (
            parse_actor(s.subrange(0, k)),
            parse_unsigned(s.subrange(k + 1, s.len() as int), u64::MAX as nat),
        ) {
            (Some(actor_id), Some(counter)) => Some(Dot { actor_id, counter: counter as u64 }),
            _ => None,
        }
    }
}

/// The entries that a text names, separated by commas; nothing where one of
/// its pieces names no entry.
pub open spec fn parse_dots(s: Seq<char>) -> Option<Seq<Dot>>
    decreases s.len(),
{
    let k = rfind_char(s, ',', s.len() as int);
    if k < 0 || k >= s.len() {
        match parse_dot(s) {
            Some(d) => Some(seq![d]),
            None => None,
        }
    } else {
        match (parse_dots(s.subrange(0, k)), parse_dot(s.subrange(k + 1, s.len() as int))) {
            (Some(ds), Some(d)) => Some(ds.push(d)),
            _ => None,
        }
    }
}

/// The version vector that a text names. Where the text names an actor more
/// than once, its last entry counts.
pub open spec fn parse_vv(s: Seq<char>) -> Option<Map<ActorId, u64>> {
    if s.len() == 0 {
        Some(Map::empty())
    } else {
        match parse_dots(s) {
            Some(ds) => Some(dots_map(ds)),
            None => None,
        }
    }
}

/// The characters of an actor's text: `v`, colons and digits.
pub proof fn lemma_actor_text_chars(a: ActorId)
    ensures
        a.text().len() > 0,
        forall|i: int|
            0 <= i < a.text().len() ==> {
                let c = #[trigger] a.text()[i];
                c == 'v' || c == ':' || is_digit(c)
            },
{
    let v = decimal(a.version as nat);
    let n = decimal(a.node_id as nat);
    let e = decimal(a.epoch as nat);
    let s = a.text();
    lemma_decimal(a.version as nat);
    lemma_decimal(a.node_id as nat);
    lemma_decimal(a.epoch as nat);
    let i0 = 1 + v.len() as int;
    let j0 = i0 + 1 + n.len() as int;
    assert forall|i: int| 0 <= i < s.len() implies {
        let c = #[trigger] s[i];
        c == 'v' || c == ':' || is_digit(c)
    } by {
        if i == 0 || i == i0 || i == j0 {
        } else if i < i0 {
            assert(s[i] == v[i - 1]);
            assert(is_digit(v[i - 1]));
        } else if i < j0 {
            assert(s[i] == n[i - i0 - 1]);
            assert(is_digit(n[i - i0 - 1]));
        } else {
            assert(s[i] == e[i - j0 - 1]);
            assert(is_digit(e[i - j0 - 1]));
        }
    }
}

/// An entry is read back from its text, which holds no comma.
pub proof fn lemma_parse_dot_text(d: Dot)
    ensures
        parse_dot(dot_text(d)) == Some(d),
        dot_text(d).len() > 0,
        forall|i: int| 0 <= i < dot_text(d).len() ==> dot_text(d)[i] != ',',
{
    let a = d.actor_id.text();
    let c = decimal(d.counter as nat);
    let s = dot_text(d);
    lemma_actor_text_chars(d.actor_id);
    lemma_decimal(d.counter as nat);
    lemma_parse_decimal(d.counter as nat, u64::MAX as nat);
    lemma_parse_actor_text(d.actor_id);
    let k = a.len() as int;
    assert(s[k] == ':');
    assert forall|i: int| k < i < s.len() implies s[i] != ':' by {
        assert(s[i] == c[i - k - 1]);
        assert(is_digit(c[i - k - 1]));
    }
    lemma_rfind_char_is(s, ':', s.len() as int, k);
    assert(s.subrange(0, k) =~= a);
    assert(s.subrange(k + 1, s.len() as int) =~= c);
    assert forall|i: int| 0 <= i < s.len() implies s[i] != ',' by {
        if i < k {
            assert(s[i] == a[i]);
        } else if i > k {
            assert(s[i] == c[i - k - 1]);
            assert(is_digit(c[i - k - 1]));
        }
    }
}

/// Entries are read back from their text.
pub proof fn lemma_parse_dots_text(s: Seq<Dot>)
    requires
        s.len() > 0,
    ensures
        parse_dots(dots_text(s)) == Some(s),
        dots_text(s).len() > 0,
    decreases s.len(),
{
    let t = dots_text(s);
    if s.len() == 1 {
        lemma_parse_dot_text(s[0]);
        lemma_rfind_char_is(t, ',', t.len() as int, -1);
        assert(s =~= seq![s[0]]);
    } else {
        let head = dots_text(s.drop_last());
        let tail = dot_text(s.last());
        lemma_parse_dots_text(s.drop_last());
        lemma_parse_dot_text(s.last());
        let k = head.len() as int;
        assert(t[k] == ',');
        assert forall|i: int| k < i < t.len() implies t[i] != ',' by {
            assert(t[i] == tail[i - k - 1]);
        }
        lemma_rfind_char_is(t, ',', t.len() as int, k);
        assert(t.subrange(0, k) =~= head);
        assert(t.subrange(k + 1, t.len() as int) =~= tail);
        assert(s.drop_last().push(s.last()) =~= s);
    }
}

/// Writing a version vector and reading the text gives the vector back.
pub proof fn lemma_vv_text_roundtrip(s: Seq<Dot>)
    requires
        ordered(s),
    ensures
        vv_text(dots_map(s)) == dots_text(s),
        parse_vv(dots_text(s)) == Some(dots_map(s)),
{
    crate::version_vector::lemma_sorted_dots(s);
    if s.len() == 0 {
        lemma_dots_map_empty();
        assert(s =~= Seq::<Dot>::empty());
    } else {
        lemma_parse_dots_text(s);
    }
}

/// A text that names an entry holds ASCII characters only.
pub proof fn lemma_dot_text_is_ascii(s: Seq<char>)
    requires
        parse_dot(s) is Some,
    ensures
        forall|i: int| 0 <= i < s.len() ==> '\0' <= #[trigger] s[i] && s[i] <= '\u{7f}',
{
    let k = rfind_char(s, ':', s.len() as int);
    lemma_rfind_char(s, ':', s.len() as int);
    let a = s.subrange(0, k);
    let c = s.subrange(k + 1, s.len() as int);
    lemma_actor_text_is_ascii(a);
    lemma_numeral_is_ascii(c, u64::MAX as nat);
    assert forall|i: int| 0 <= i < s.len() implies '\0' <= #[trigger] s[i] && s[i] <= '\u{7f}' by {
        if i < k {
            assert(s[i] == a[i]);
        } else if i > k {
            assert(s[i] == c[i - k - 1]);
        }
    }
}

/// A text that names entries holds ASCII characters only.
pub proof fn lemma_dots_text_is_ascii(s: Seq<char>)
    requires
        parse_dots(s) is Some,
    ensures
        forall|i: int| 0 <= i < s.len() ==> '\0' <= #[trigger] s[i] && s[i] <= '\u{7f}',
    decreases s.len(),
{
    let k = rfind_char(s, ',', s.len() as int);
    lemma_rfind_char(s, ',', s.len() as int);
    if k < 0 {
        lemma_dot_text_is_ascii(s);
    } else {
        let head = s.subrange(0, k);
        let tail = s.subrange(k + 1, s.len() as int);
        lemma_dots_text_is_ascii(head);
        lemma_dot_text_is_ascii(tail);
        assert forall|i: int| 0 <= i < s.len() implies '\0' <= #[trigger] s[i] && s[i] <= '\u{7f}' by {
            if i < k {
                assert(s[i] == head[i]);
            } else if i > k {
                assert(s[i] == tail[i - k - 1]);
            }
        }
    }
}

/// Where the text before one of its commas names no entries, the whole text
/// names none.
pub proof fn lemma_parse_dots_prefix(s: Seq<char>, c: int)
    requires
        0 <= c <= s.len(),
        c < s.len() ==> s[c] == ',',
        parse_dots(s.subrange(0, c)) is None,
    ensures
        parse_dots(s) is None,
    decreases s.len(),
{
    if c == s.len() {
        assert(s.subrange(0, c) =~= s);
    } else {
        let k = rfind_char(s, ',', s.len() as int);
        lemma_rfind_char(s, ',', s.len() as int);
        assert(k >= c);
        if k > c {
            let t = s.subrange(0, k);
            assert(t.subrange(0, c) =~= s.subrange(0, c));
            lemma_parse_dots_prefix(t, c);
        }
    }
}

/// Reads the entry that stands in `bytes` from `from` up to `to`.
pub fn parse_dot_bytes(bytes: &[u8], from: usize, to: usize, Ghost(chars): Ghost<Seq<char>>) -> (r:
    Option<Dot>)
    requires
        ascii_of(bytes@, chars),
        from <= to <= bytes.len(),
    ensures
        r == parse_dot(chars.subrange(from as int, to as int)),
{
    let ghost s = chars.subrange(from as int, to as int);
    match rfind_byte(bytes, 58, from, to, Ghost(chars)) {
        None => {
            proof {
                lemma_rfind_char_is(s, ':', s.len() as int, -1);
            }
            None
        },
        Some(k) => {
            proof {
                lemma_rfind_char_is(s, ':', s.len() as int, k - from);
                assert(s.subrange(0, k - from) =~= chars.subrange(from as int, k as int));
                assert(s.subrange(k - from + 1, s.len() as int) =~= chars.subrange(
                    k + 1,
                    to as int,
                ));
            }
            let actor = parse_actor_bytes(bytes, from, k, Ghost(chars));
            let counter = parse_number(bytes, k + 1, to, u64::MAX, Ghost(chars));
            match (actor, counter) {
                (Some(actor_id), Some(counter)) => Some(Dot { actor_id, counter }),
                _ => None,
            }
        },
    }
}

impl VersionVector {
    /// Writes the vector as text.
    pub fn to_string(&self) -> (r: String)
        ensures
            r@ == vv_text(self@),
            parse_vv(r@) == Some(self@),
    {
        let dots = self.dots();
        let mut out = String::new();
        let mut i: usize = 0;
        proof {
            assert(dots@.subrange(0, 0) =~= Seq::<Dot>::empty());
            reveal_strlit(",");
            reveal_strlit(":");
        }
        while i < dots.len()
            invariant
                i <= dots@.len(),
                out@ == dots_text(dots@.subrange(0, i as int)),
                ","@ == seq![','],
                ":"@ == seq![':'],
            decreases dots@.len() - i,
        {
            let ghost before = out@;
            if i > 0 {
                out.append(",");
            }
            let d: Dot = dots[i];
            d.actor_id.push_text(&mut out);
            out.append(":");
            push_decimal(&mut out, d.counter);
            proof {
                let p = dots@.subrange(0, i + 1);
                assert(p.drop_last() =~= dots@.subrange(0, i as int));
                assert(p.last() == d);
                if i == 0 {
                    assert(p[0] == d);
                    assert(out@ =~= dot_text(d));
                } else {
                    assert(out@ =~= before + seq![','] + dot_text(d));
                }
            }
            i = i + 1;
        }
        proof {
            assert(dots@.subrange(0, i as int) =~= dots@);
            lemma_vv_text_roundtrip(dots@);
        }
        out
    }

    /// Reads a vector from its text. The entries may stand in any order; of
    /// two entries for one actor the later one counts.
    pub fn from_str(s: &str) -> (r: Option<Self>)
        ensures
            match parse_vv(s@) {
                Some(m) => r is Some && r->0@ == m,
                None => r is None,
            },
    {
        if s.is_empty() {
            return Some(VersionVector::new());
        }
        if !s.is_ascii() {
            proof {
                if parse_dots(s@) is Some {
                    lemma_dots_text_is_ascii(s@);
                }
            }
            return None;
        }
        let bytes = s.as_bytes();
        let ghost chars = s@;
        proof {
            vstd::utf8::is_ascii_chars_encode_utf8(chars);
        }
        let n: usize = bytes.len();
        let mut dots: Vec<Dot> = Vec::new();
        let mut start: usize = 0;
        loop
            invariant_except_break
                start <= n,
                start == 0 ==> dots@.len() == 0,
                start > 0 ==> chars[start - 1] == ',' && parse_dots(chars.subrange(0, start - 1))
                    == Some(dots@),
            invariant
                ascii_of(bytes@, chars),
                n == bytes.len(),
                chars == s@,
                chars.len() > 0,
            ensures
                parse_dots(chars) == Some(dots@),
            decreases n - start,
        {
            let comma: usize = find_byte(bytes, 44, start, n, Ghost(chars));
            let piece = parse_dot_bytes(bytes, start, comma, Ghost(chars));
            proof {
                let p = chars.subrange(0, comma as int);
                if start == 0 {
                    lemma_rfind_char_is(p, ',', p.len() as int, -1);
                    assert(p.subrange(0, p.len() as int) =~= p);
                } else {
                    assert(p[start - 1] == chars[start - 1]);
                    lemma_rfind_char_is(p, ',', p.len() as int, start - 1);
                    assert(p.subrange(0, start - 1) =~= chars.subrange(0, start - 1));
                    assert(p.subrange(start as int, p.len() as int) =~= chars.subrange(
                        start as int,
                        comma as int,
                    ));
                }
            }
            match piece {
                None => {
                    proof {
                        lemma_parse_dots_prefix(chars, comma as int);
                    }
                    return None;
                },
                Some(d) => {
                    dots.push(d);
                },
            }
            if comma >= n {
                proof {
                    assert(chars.subrange(0, comma as int) =~= chars);
                }
                break ;
            }
            start = comma + 1;
        }
        Some(VersionVector::from_dots(dots.as_slice()))
    }
}

} // verus!
