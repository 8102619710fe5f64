//! The command protocol: values on the wire, the way from bytes to a value
//! and from a value to bytes.

use crate::blob::{bytes_as_slice, bytes_content, bytes_from_slice};
use crate::text::{
    as_chars, decimal, lemma_as_chars, lemma_decimal, parse_signed, parse_signed_bytes,
    push_decimal,
};
use bytes::{Bytes, BytesMut};
use vstd::prelude::*;
use vstd::string::*;

verus! {

#[verifier::external_type_specification]
#[verifier::external_body]
pub struct ExIoError(std::io::Error);

#[verifier::external_type_specification]
#[verifier::external_body]
pub struct ExBytesMut(bytes::BytesMut);

/// The bytes that a `BytesMut` holds.
pub uninterp spec fn bytes_mut_content(b: BytesMut) -> Seq<u8>;

/// The text that `String::from_utf8_lossy` makes of bytes: the text that the
/// bytes encode, with a replacement character for what encodes none.
pub uninterp spec fn utf8_lossy(bytes: Seq<u8>) -> Seq<char>;

/// `BytesMut::extend_from_slice`: the bytes are appended; the buffer grows
/// as needed.
#[verifier::external_body]
fn put_slice(buf: &mut BytesMut, src: &[u8])
    ensures
        bytes_mut_content(*final(buf)) == bytes_mut_content(*old(buf)) + src@,
{
    buf.extend_from_slice(src);
}

/// `String::from_utf8_lossy`, as an owned text.
#[verifier::external_body]
pub(crate) fn lossy_string(bytes: &[u8]) -> (r: String)
    ensures
        r@ == utf8_lossy(bytes@),
{
    String::from_utf8_lossy(bytes).into_owned()
}

/// Why bytes are not read as a value.
#[derive(Debug)]
pub enum RespError {
    Io(std::io::Error),
    /// The bytes are not of the protocol.
    InvalidProtocol,
    /// The bytes end before the value does.
    Incomplete,
}

/// A value of the protocol.
#[derive(Debug, PartialEq)]
pub enum RespValue {
    SimpleString(String),
    Error(String),
    Integer(i64),
    BulkString(Bytes),
    Array(Vec<RespValue>),
    Null,
}

/// A value as plain values.
pub enum RespView {
    SimpleString(Seq<char>),
    Error(Seq<char>),
    Integer(i64),
    BulkString(Seq<u8>),
    Array(Seq<RespView>),
    Null,
}

/// What reading a value from bytes comes to: the value and the place after
/// it, or why there is none.
pub enum RespParse {
    Done(RespView, int),
    Incomplete,
    Invalid,
}

/// What reading several values comes to.
pub enum ItemsParse {
    Done(Seq<RespView>, int),
    Incomplete,
    Invalid,
}

impl RespValue {
    pub open spec fn view(self) -> RespView
        decreases self,
    {
        match self {
            RespValue::SimpleString(s) => RespView::SimpleString(s@),
            RespValue::Error(s) => RespView::Error(s@),
            RespValue::Integer(n) => RespView::Integer(n),
            RespValue::BulkString(b) => RespView::BulkString(bytes_content(b)),
            RespValue::Array(items) => RespView::Array(
                Seq::new(
                    items@.len(),
                    |i: int|
                        if 0 <= i < items@.len() {
                            items@[i].view()
                        } else {
                            RespView::Null
                        },
                ),
            ),
            RespValue::Null => RespView::Null,
        }
    }
}

impl Clone for RespValue {
    fn clone(&self) -> (r: Self)
        ensures
            r.view() == self.view(),
        decreases self,
    {
        match self {
            RespValue::SimpleString(s) => RespValue::SimpleString(s.clone()),
            RespValue::Error(s) => RespValue::Error(s.clone()),
            RespValue::Integer(n) => RespValue::Integer(*n),
            RespValue::BulkString(b) => RespValue::BulkString(b.clone()),
            RespValue::Array(items) => {
                let mut out: Vec<RespValue> = Vec::new();
                let mut i: usize = 0;
                while i < items.len()
                    invariant
                        i <= items@.len(),
                        out@.len() == i,
                        forall|k: int| 0 <= k < i ==> (#[trigger] out@[k]).view() == items@[k].view(),
                        forall|k: int|
                            0 <= k < items@.len() ==> decreases_to!(self => #[trigger] items@[k]),
                    decreases items@.len() - i,
                {
                    out.push(items[i].clone());
                    i = i + 1;
                }
                proof {
                    assert(RespValue::Array(out).view()->Array_0 =~= self.view()->Array_0);
                }
                RespValue::Array(out)
            },
            RespValue::Null => RespValue::Null,
        }
    }
}

/// The views of values.
pub open spec fn views(items: Seq<RespValue>) -> Seq<RespView> {
    Seq::new(items.len(), |i: int| items[i].view())
}

/// The place of the first line end, a carriage return and a line feed, at or
/// after `from`; -1 where there is none.
pub open spec fn line_end(s: Seq<u8>, from: int) -> int
    decreases s.len() - from,
{
    if from < 0 || from + 1 >= s.len() {
        -1
    } else if s[from] == 13 && s[from + 1] == 10 {
        from
    } else {
        line_end(s, from + 1)
    }
}

pub proof fn lemma_line_end(s: Seq<u8>, from: int)
    requires
        0 <= from,
    ensures
        line_end(s, from) == -1 || (from <= line_end(s, from) && line_end(s, from) + 1 < s.len()
            && s[line_end(s, from)] == 13 && s[line_end(s, from) + 1] == 10),
        forall|i: int|
            from <= i && i + 1 < s.len() && (line_end(s, from) == -1 || i < line_end(s, from)) ==> !(
            #[trigger] s[i] == 13 && s[i + 1] == 10),
    decreases s.len() - from,
{
    if from + 1 < s.len() && !(s[from] == 13 && s[from + 1] == 10) {
        lemma_line_end(s, from + 1);
    }
}

/// Reads the value that starts at `pos`.
///
/// A value is a tag byte, a line, and for a bulk string or an array what
/// the line announces: `+` and `-` with a text, `:` with a number, `$` with
/// the length of the bytes that follow, closed by a line end, `*` with the
/// number of values that follow. The length or number -1 stands for the
/// null value; another negative one is not of the protocol.
pub open spec fn parse_at(s: Seq<u8>, pos: int) -> RespParse
    decreases s.len() - pos, 0nat,
{
    if pos < 0 || pos >= s.len() {
        RespParse::Incomplete
    } else if s[pos] != 43 && s[pos] != 45 && s[pos] != 58 && s[pos] != 36 && s[pos] != 42 {
        RespParse::Invalid
    } else {
        let e = line_end(s, pos + 1);
        if e < pos + 1 || e + 2 > s.len() {
            RespParse::Incomplete
        } else {
            let line = s.subrange(pos + 1, e);
            let next = e + 2;
            if s[pos] == 43 {
                RespParse::Done(RespView::SimpleString(utf8_lossy(line)), next)
            } else if s[pos] == 45 {
                RespParse::Done(RespView::Error(utf8_lossy(line)), next)
            } else {
                match parse_signed(as_chars(line)) {
                    None => RespParse::Invalid,
                    Some(n) => if s[pos] == 58 {
                        RespParse::Done(RespView::Integer(n as i64), next)
                    } else if n == -1 {
                        RespParse::Done(RespView::Null, next)
                    } else if n < 0 {
                        RespParse::Invalid
                    } else if s[pos] == 36 {
                        if s.len() - next < n + 2 {
                            RespParse::Incomplete
                        } else if s[next + n] != 13 || s[next + n + 1] != 10 {
                            RespParse::Invalid
                        } else {
                            RespParse::Done(
                                RespView::BulkString(s.subrange(next, next + n)),
                                next + n + 2,
                            )
                        }
                    } else {
                        match parse_items(s, next, n, Seq::empty()) {
                            ItemsParse::Done(items, end) => RespParse::Done(
                                RespView::Array(items),
                                end,
                            ),
                            ItemsParse::Incomplete => RespParse::Incomplete,
                            ItemsParse::Invalid => RespParse::Invalid,
                        }
                    },
                }
            }
        }
    }
}

/// Reads `n` values that follow one another from `pos`, after the values
/// `acc` that were read before them.
pub open spec fn parse_items(s: Seq<u8>, pos: int, n: int, acc: Seq<RespView>) -> ItemsParse
    decreases s.len() - pos, 1nat + (if n > 0 { n as nat } else { 0 }),
{
    if n <= 0 {
        ItemsParse::Done(acc, pos)
    } else if pos < 0 || pos > s.len() {
        ItemsParse::Incomplete
    } else {
        match parse_at(s, pos) {
            RespParse::Done(v, next) => if pos < next <= s.len() {
                parse_items(s, next, n - 1, acc.push(v))
            } else {
                ItemsParse::Invalid
            },
            RespParse::Incomplete => ItemsParse::Incomplete,
            RespParse::Invalid => ItemsParse::Invalid,
        }
    }
}

/// A value that is read ends after its start and within the bytes.
pub proof fn lemma_parse_at_end(s: Seq<u8>, pos: int)
    ensures
        parse_at(s, pos) matches RespParse::Done(_, end) ==> pos < end <= s.len(),
    decreases s.len() - pos, 0nat,
{
    if 0 <= pos < s.len() {
        lemma_line_end(s, pos + 1);
        let e = line_end(s, pos + 1);
        if e >= pos + 1 && e + 2 <= s.len() && s[pos] == 42 {
            let line = s.subrange(pos + 1, e);
            match parse_signed(as_chars(line)) {
                Some(n) => {
                    if n >= 0 {
                        lemma_parse_items_end(s, e + 2, n, Seq::empty());
                    }
                },
                None => {},
            }
        }
    }
}

pub proof fn lemma_parse_items_end(s: Seq<u8>, pos: int, n: int, acc: Seq<RespView>)
    requires
        0 <= pos <= s.len(),
    ensures
        parse_items(s, pos, n, acc) matches ItemsParse::Done(_, end) ==> pos <= end <= s.len(),
    decreases s.len() - pos, 1nat + (if n > 0 { n as nat } else { 0 }),
{
    if n > 0 {
        match parse_at(s, pos) {
            RespParse::Done(v, next) => {
                if pos < next <= s.len() {
                    lemma_parse_items_end(s, next, n - 1, acc.push(v));
                }
            },
            _ => {},
        }
    }
}

/// The place of the line end at or after `from`.
fn find_line_end(buf: &[u8], from: usize) -> (r: Option<usize>)
    requires
        from <= buf.len(),
    ensures
        match r {
            Some(e) => line_end(buf@, from as int) == e && from <= e && e + 2 <= buf@.len(),
            None => line_end(buf@, from as int) == -1,
        },
{
    let mut i: usize = from;
    while i < buf.len() && i + 1 < buf.len()
        invariant
            from <= i <= buf@.len(),
            line_end(buf@, from as int) == line_end(buf@, i as int),
        decreases buf@.len() - i,
    {
        if buf[i] == 13 && buf[i + 1] == 10 {
            return Some(i);
        }
        i = i + 1;
    }
    None
}

fn copy_range(buf: &[u8], from: usize, to: usize) -> (r: Vec<u8>)
    requires
        from <= to <= buf.len(),
    ensures
        r@ == buf@.subrange(from as int, to as int),
{
    let mut out: Vec<u8> = Vec::new();
    let mut i: usize = from;
    while i < to
        invariant
            from <= i <= to <= buf@.len(),
            out@ == buf@.subrange(from as int, i as int),
        decreases to - i,
    {
        out.push(buf[i]);
        assert(out@ =~= buf@.subrange(from as int, i + 1));
        i = i + 1;
    }
    out
}

/// Reads the value that starts at `pos` of `buf`. Gives the value and the
/// place after it.
pub fn parse_value(buf: &[u8], pos: usize) -> (r: Result<(RespValue, usize), RespError>)
    ensures
        match parse_at(buf@, pos as int) {
            RespParse::Done(v, end) => r matches Ok(got) && got.0.view() == v && got.1 == end,
            RespParse::Incomplete => r matches Err(RespError::Incomplete),
            RespParse::Invalid => r matches Err(RespError::InvalidProtocol),
        },
    decreases buf@.len() - pos,
{
    if pos >= buf.len() {
        return Err(RespError::Incomplete);
    }
    let tag: u8 = buf[pos];
    if tag != 43 && tag != 45 && tag != 58 && tag != 36 && tag != 42 {
        return Err(RespError::InvalidProtocol);
    }
    let e: usize = match find_line_end(buf, pos + 1) {
        Some(e) => e,
        None => {
            return Err(RespError::Incomplete);
        },
    };
    let next: usize = e + 2;
    let ghost line = buf@.subrange(pos + 1, e as int);
    if tag == 43 {
        let text = lossy_string(copy_range(buf, pos + 1, e).as_slice());
        return Ok((RespValue::SimpleString(text), next));
    }
    if tag == 45 {
        let text = lossy_string(copy_range(buf, pos + 1, e).as_slice());
        return Ok((RespValue::Error(text), next));
    }
    proof {
        lemma_as_chars(buf@);
        assert(as_chars(buf@).subrange(pos + 1, e as int) =~= as_chars(line));
    }
    let n: i64 = match parse_signed_bytes(buf, pos + 1, e, Ghost(as_chars(buf@))) {
        Some(n) => n,
        None => {
            return Err(RespError::InvalidProtocol);
        },
    };
    if tag == 58 {
        return Ok((RespValue::Integer(n), next));
    }
    if n == -1 {
        return Ok((RespValue::Null, next));
    }
    if n < 0 {
        return Err(RespError::InvalidProtocol);
    }
    if tag == 36 {
        let rest: usize = buf.len() - next;
        if (rest as u128) < (n as u128) + 2 {
            return Err(RespError::Incomplete);
        }
        let len: usize = n as usize;
        if buf[next + len] != 13 || buf[next + len + 1] != 10 {
            return Err(RespError::InvalidProtocol);
        }
        let data = bytes_from_slice(copy_range(buf, next, next + len).as_slice());
        return Ok((RespValue::BulkString(data), next + len + 2));
    }
    let mut items: Vec<RespValue> = Vec::new();
    let mut left: i64 = n;
    let mut at: usize = next;
    proof {
        assert(views(items@) =~= Seq::<RespView>::empty());
    }
    while left > 0
        invariant
            pos < at <= buf@.len(),
            0 <= left,
            parse_at(buf@, pos as int) == (match parse_items(
                buf@,
                next as int,
                n as int,
                Seq::empty(),
            ) {
                ItemsParse::Done(found, end) => RespParse::Done(RespView::Array(found), end),
                ItemsParse::Incomplete => RespParse::Incomplete,
                ItemsParse::Invalid => RespParse::Invalid,
            }),
            parse_items(buf@, next as int, n as int, Seq::empty()) == parse_items(
                buf@,
                at as int,
                left as int,
                views(items@),
            ),
        decreases left,
    {
        let ghost before = views(items@);
        proof {
            lemma_parse_at_end(buf@, at as int);
        }
        match parse_value(buf, at) {
            Ok((item, end)) => {
                items.push(item);
                proof {
                    assert(views(items@) =~= before.push(item.view()));
                }
                at = end;
                left = left - 1;
            },
            Err(RespError::Incomplete) => {
                return Err(RespError::Incomplete);
            },
            Err(_) => {
                return Err(RespError::InvalidProtocol);
            },
        }
    }
    proof {
        assert(RespValue::Array(items).view() == RespView::Array(views(items@))) by {
            assert(RespValue::Array(items).view()->Array_0 =~= views(items@));
        }
    }
    Ok((RespValue::Array(items), at))
}

// ----- writing -----
/// The bytes of a decimal numeral.
pub open spec fn decimal_bytes(n: nat) -> Seq<u8> {
    decimal(n).map_values(|c: char| c as u8)
}

/// The bytes of the decimal numeral of a signed number.
pub open spec fn signed_bytes(n: int) -> Seq<u8> {
    if n < 0 {
        seq![45u8] + decimal_bytes((-n) as nat)
    } else {
        decimal_bytes(n as nat)
    }
}

pub open spec fn crlf() -> Seq<u8> {
    seq![13u8, 10u8]
}

/// The bytes of a value.
pub open spec fn resp_bytes(v: RespView) -> Seq<u8>
    decreases v,
{
    match v {
        RespView::SimpleString(s) => seq![43u8] + vstd::utf8::encode_utf8(s) + crlf(),
        RespView::Error(s) => seq![45u8] + vstd::utf8::encode_utf8(s) + crlf(),
        RespView::Integer(n) => seq![58u8] + signed_bytes(n as int) + crlf(),
        RespView::BulkString(b) => seq![36u8] + decimal_bytes(b.len()) + crlf() + b + crlf(),
        RespView::Array(items) => seq![42u8] + decimal_bytes(items.len()) + crlf() + items_bytes(
            items,
        ),
        RespView::Null => seq![36u8, 45u8, 49u8, 13u8, 10u8],
    }
}

/// The bytes of values that follow one another.
pub open spec fn items_bytes(items: Seq<RespView>) -> Seq<u8>
    decreases items,
{
    if items.len() == 0 {
        Seq::empty()
    } else {
        items_bytes(items.drop_last()) + resp_bytes(items.last())
    }
}

fn put_byte(buf: &mut BytesMut, b: u8)
    ensures
        bytes_mut_content(*final(buf)) == bytes_mut_content(*old(buf)) + seq![b],
{
    let one: [u8; 1] = [b];
    assert(one@ =~= seq![b]);
    put_slice(buf, one.as_slice());
}

fn put_decimal(buf: &mut BytesMut, n: u64)
    ensures
        bytes_mut_content(*final(buf)) == bytes_mut_content(*old(buf)) + decimal_bytes(n as nat),
{
    let mut text = String::new();
    push_decimal(&mut text, n);
    proof {
        lemma_decimal(n as nat);
        assert(text@ =~= decimal(n as nat));
        assert(vstd::utf8::is_ascii_chars(text@)) by {
            assert forall|i: int| 0 <= i < text@.len() implies '\0' <= #[trigger] text@[i]
                <= '\u{7f}' by {
                assert(crate::text::is_digit(text@[i]));
            }
        }
        vstd::utf8::is_ascii_chars_encode_utf8(text@);
        assert(vstd::utf8::encode_utf8(text@) =~= decimal_bytes(n as nat));
    }
    put_slice(buf, text.as_str().as_bytes());
}

fn put_crlf(buf: &mut BytesMut)
    ensures
        bytes_mut_content(*final(buf)) == bytes_mut_content(*old(buf)) + crlf(),
{
    let two: [u8; 2] = [13, 10];
    assert(two@ =~= crlf());
    put_slice(buf, two.as_slice());
}

impl RespValue {
    /// Reads a value from the start of `buf`. Gives the value and the number
    /// of bytes that it took.
    pub fn parse(buf: &[u8]) -> (r: Result<(RespValue, usize), RespError>)
        ensures
            match parse_at(buf@, 0) {
                RespParse::Done(v, end) => r matches Ok(got) && got.0.view() == v && got.1 == end,
                RespParse::Incomplete => r matches Err(RespError::Incomplete),
                RespParse::Invalid => r matches Err(RespError::InvalidProtocol),
            },
    {
        parse_value(buf, 0)
    }

    /// Appends the bytes of the value to `buf`.
    pub fn serialize(&self, buf: &mut BytesMut)
        ensures
            bytes_mut_content(*final(buf)) == bytes_mut_content(*old(buf)) + resp_bytes(self.view()),
        decreases self,
    {
        let ghost start = bytes_mut_content(*buf);
        match self {
            RespValue::SimpleString(s) => {
                put_byte(buf, 43);
                put_slice(buf, s.as_str().as_bytes());
                put_crlf(buf);
                assert(bytes_mut_content(*buf) =~= start + resp_bytes(self.view()));
            },
            RespValue::Error(s) => {
                put_byte(buf, 45);
                put_slice(buf, s.as_str().as_bytes());
                put_crlf(buf);
                assert(bytes_mut_content(*buf) =~= start + resp_bytes(self.view()));
            },
            RespValue::Integer(n) => {
                put_byte(buf, 58);
                if *n < 0 {
                    put_byte(buf, 45);
                    let m: u64 = ((-(*n + 1)) as u64) + 1;
                    put_decimal(buf, m);
                } else {
                    put_decimal(buf, *n as u64);
                }
                put_crlf(buf);
                assert(bytes_mut_content(*buf) =~= start + resp_bytes(self.view()));
            },
            RespValue::BulkString(data) => {
                let bytes = bytes_as_slice(data);
                put_byte(buf, 36);
                put_decimal(buf, bytes.len() as u64);
                put_crlf(buf);
                put_slice(buf, bytes);
                put_crlf(buf);
                assert(bytes_mut_content(*buf) =~= start + resp_bytes(self.view()));
            },
            RespValue::Array(items) => {
                put_byte(buf, 42);
                put_decimal(buf, items.len() as u64);
                put_crlf(buf);
                let ghost head = bytes_mut_content(*buf);
                let ghost all = self.view()->Array_0;
                let mut i: usize = 0;
                proof {
                    assert(all.subrange(0, 0) =~= Seq::<RespView>::empty());
                    assert(head =~= head + items_bytes(all.subrange(0, 0)));
                }
                while i < items.len()
                    invariant
                        i <= items@.len(),
                        all.len() == items@.len(),
                        forall|k: int| 0 <= k < items@.len() ==> all[k] == (#[trigger] items@[k]).view(),
                        forall|k: int| 0 <= k < items@.len() ==> decreases_to!(self => #[trigger] items@[k]),
                        bytes_mut_content(*buf) == head + items_bytes(all.subrange(0, i as int)),
                    decreases items@.len() - i,
                {
                    proof {
                        let grown = all.subrange(0, i + 1);
                        assert(grown.drop_last() =~= all.subrange(0, i as int));
                        assert(grown.last() == items@[i as int].view());
                    }
                    let ghost before = bytes_mut_content(*buf);
                    items[i].serialize(buf);
                    proof {
                        assert(bytes_mut_content(*buf) =~= head + items_bytes(
                            all.subrange(0, i + 1),
                        ));
                    }
                    i = i + 1;
                }
                proof {
                    assert(all.subrange(0, i as int) =~= all);
                    assert(bytes_mut_content(*buf) =~= start + resp_bytes(self.view()));
                }
            },
            RespValue::Null => {
                let null: [u8; 5] = [36, 45, 49, 13, 10];
                assert(null@ =~= resp_bytes(RespView::Null));
                put_slice(buf, null.as_slice());
            },
        }
    }

    /// The bulk strings of an array of bulk strings; `None` for any other
    /// value.
    pub fn as_bulk_string_array(&self) -> (r: Option<Vec<Bytes>>)
        ensures
            match bulk_strings(self.view()) {
                Some(parts) => r matches Some(got) && crate::blob::contents(got@) == parts,
                None => r is None,
            },
    {
        match self {
            RespValue::Array(items) => {
                let ghost all = self.view()->Array_0;
                let mut out: Vec<Bytes> = Vec::new();
                let mut i: usize = 0;
                proof {
                    assert(all.subrange(0, 0) =~= Seq::<RespView>::empty());
                    assert(crate::blob::contents(out@) =~= Seq::<Seq<u8>>::empty());
                }
                while i < items.len()
                    invariant
                        i <= items@.len(),
                        all.len() == items@.len(),
                        forall|k: int| 0 <= k < items@.len() ==> all[k] == (#[trigger] items@[k]).view(),
                        all_bulk(all.subrange(0, i as int)) == Some(crate::blob::contents(out@)),
                        bulk_strings(self.view()) == all_bulk(all),
                    decreases items@.len() - i,
                {
                    proof {
                        let grown = all.subrange(0, i + 1);
                        assert(grown.drop_last() =~= all.subrange(0, i as int));
                        assert(grown.last() == items@[i as int].view());
                    }
                    let ghost before = crate::blob::contents(out@);
                    match &items[i] {
                        RespValue::BulkString(data) => {
                            out.push(data.clone());
                            proof {
                                assert(crate::blob::contents(out@) =~= before.push(
                                    bytes_content(*data),
                                ));
                            }
                        },
                        _ => {
                            proof {
                                lemma_all_bulk_prefix(all, i + 1);
                            }
                            return None;
                        },
                    }
                    i = i + 1;
                }
                proof {
                    assert(all.subrange(0, i as int) =~= all);
                }
                Some(out)
            },
            _ => None,
        }
    }
}

/// The bytes of the values, where each of them is a bulk string.
pub open spec fn all_bulk(items: Seq<RespView>) -> Option<Seq<Seq<u8>>>
    decreases items.len(),
{
    if items.len() == 0 {
        Some(Seq::empty())
    } else {
        match (all_bulk(items.drop_last()), items.last()) {
            (Some(parts), RespView::BulkString(b)) => Some(parts.push(b)),
            _ => None,
        }
    }
}

/// The parts of a command: the bytes of the bulk strings of an array.
pub open spec fn bulk_strings(v: RespView) -> Option<Seq<Seq<u8>>> {
    match v {
        RespView::Array(items) => all_bulk(items),
        _ => None,
    }
}

pub proof fn lemma_all_bulk_prefix(items: Seq<RespView>, n: int)
    requires
        0 <= n <= items.len(),
        all_bulk(items.subrange(0, n)) is None,
    ensures
        all_bulk(items) is None,
    decreases items.len(),
{
    if n == items.len() {
        assert(items.subrange(0, n) =~= items);
    } else {
        assert(items.drop_last().subrange(0, n) =~= items.subrange(0, n));
        lemma_all_bulk_prefix(items.drop_last(), n);
    }
}

} // verus!
