//! Decimal numbers and character scanning over ASCII text.
//!
//! Contracts speak of character sequences; the executable helpers walk
//! the bytes of a string that is known to be ASCII.

use vstd::prelude::*;
use vstd::string::*;

verus! {

/// `bytes` holds the codes of `chars`, one byte per character: each
/// character's code is below 256. So it is for the bytes of an ASCII text.
pub open spec fn ascii_of(bytes: Seq<u8>, chars: Seq<char>) -> bool {
    &&& bytes.len() == chars.len()
    &&& forall|i: int|
        0 <= i < chars.len() ==> {
            let c = #[trigger] chars[i];
            '\0' <= c && c <= '\u{ff}' && bytes[i] == c as u8
        }
}

/// The characters whose codes are the bytes.
pub open spec fn as_chars(bytes: Seq<u8>) -> Seq<char> {
    bytes.map_values(|b: u8| b as char)
}

pub proof fn lemma_as_chars(bytes: Seq<u8>)
    ensures
        ascii_of(bytes, as_chars(bytes)),
{
}

pub open spec fn is_digit(c: char) -> bool {
    '0' <= c && c <= '9'
}

/// The value of a decimal digit character.
pub open spec fn digit_value(c: char) -> nat {
    (c as u32 - 48) as nat
}

/// The character of a decimal digit `d < 10`.
pub open spec fn digit_char(d: nat) -> char {
    ((48 + d) as u8) as char
}

/// The shortest decimal numeral of `n`.
pub open spec fn decimal(n: nat) -> Seq<char>
    decreases n,
{
    if n < 10 {
        seq![digit_char(n)]
    } else {
        decimal(n / 10).push(digit_char(n % 10))
    }
}

pub open spec fn all_digits(s: Seq<char>) -> bool {
    forall|i: int| 0 <= i < s.len() ==> is_digit(#[trigger] s[i])
}

/// The number that a sequence of decimal digits denotes; leading zeros count
/// for nothing.
pub open spec fn digits_value(s: Seq<char>) -> nat
    decreases s.len(),
{
    if s.len() == 0 {
        0
    } else {
        digits_value(s.drop_last()) * 10 + digit_value(s.last())
    }
}

/// The digits of a numeral: the text without one leading `+`, if it has one.
pub open spec fn numeral_body(s: Seq<char>) -> Seq<char> {
    if s.len() > 0 && s[0] == '+' {
        s.subrange(1, s.len() as int)
    } else {
        s
    }
}

/// Reads digits that denote a number no larger than `max`: one digit or
/// more, and nothing else.
pub open spec fn parse_digits(s: Seq<char>, max: nat) -> Option<nat> {
    if s.len() > 0 && all_digits(s) && digits_value(s) <= max {
        Some(digits_value(s))
    } else {
        None
    }
}

/// Reads an unsigned decimal numeral no larger than `max`: an optional `+`,
/// then one digit or more, and nothing else.
pub open spec fn parse_unsigned(s: Seq<char>, max: nat) -> Option<nat> {
    parse_digits(numeral_body(s), max)
}

/// Reads a signed decimal numeral of 64 bits: an optional `+` or `-`, then
/// one digit or more, and nothing else.
pub open spec fn parse_signed(s: Seq<char>) -> Option<int> {
    if s.len() > 0 && s[0] == '-' {
        match parse_digits(s.subrange(1, s.len() as int), 0x8000_0000_0000_0000) {
            Some(n) => Some(-(n as int)),
            None => None,
        }
    } else {
        match parse_unsigned(s, 0x7fff_ffff_ffff_ffff) {
            Some(n) => Some(n as int),
            None => None,
        }
    }
}

/// The first position at or after `from` where `c` stands in `s`, or the
/// length of `s` where there is none.
pub open spec fn find_char(s: Seq<char>, c: char, from: int) -> int
    decreases s.len() - from,
{
    if from < 0 || from >= s.len() {
        s.len() as int
    } else if s[from] == c {
        from
    } else {
        find_char(s, c, from + 1)
    }
}

/// The last position before `to` where `c` stands in `s`, or -1.
pub open spec fn rfind_char(s: Seq<char>, c: char, to: int) -> int
    decreases to,
{
    if to <= 0 || to > s.len() {
        -1
    } else if s[to - 1] == c {
        to - 1
    } else {
        rfind_char(s, c, to - 1)
    }
}

pub proof fn lemma_find_char(s: Seq<char>, c: char, from: int)
    requires
        0 <= from <= s.len(),
    ensures
        from <= find_char(s, c, from) <= s.len(),
        find_char(s, c, from) < s.len() ==> s[find_char(s, c, from)] == c,
        forall|i: int| from <= i < find_char(s, c, from) ==> s[i] != c,
    decreases s.len() - from,
{
    if from < s.len() && s[from] != c {
        lemma_find_char(s, c, from + 1);
    }
}

pub proof fn lemma_rfind_char(s: Seq<char>, c: char, to: int)
    requires
        0 <= to <= s.len(),
    ensures
        -1 <= rfind_char(s, c, to) < to,
        rfind_char(s, c, to) >= 0 ==> s[rfind_char(s, c, to)] == c,
        forall|i: int| rfind_char(s, c, to) < i < to ==> s[i] != c,
    decreases to,
{
    if to > 0 && s[to - 1] != c {
        lemma_rfind_char(s, c, to - 1);
    }
}

/// A position is the first occurrence once it holds `c` and nothing before
/// it does.
pub proof fn lemma_find_char_is(s: Seq<char>, c: char, from: int, at: int)
    requires
        0 <= from <= at <= s.len(),
        at < s.len() ==> s[at] == c,
        forall|i: int| from <= i < at ==> s[i] != c,
    ensures
        find_char(s, c, from) == at,
    decreases at - from,
{
    if from < at {
        lemma_find_char_is(s, c, from + 1, at);
    }
}

pub proof fn lemma_rfind_char_is(s: Seq<char>, c: char, to: int, at: int)
    requires
        -1 <= at < to <= s.len(),
        at >= 0 ==> s[at] == c,
        forall|i: int| at < i < to ==> s[i] != c,
    ensures
        rfind_char(s, c, to) == at,
    decreases to - at,
{
    if at < to - 1 {
        lemma_rfind_char_is(s, c, to - 1, at);
    }
}

/// A numeral is made of digits, is not empty, and denotes its number.
pub proof fn lemma_decimal(n: nat)
    ensures
        decimal(n).len() > 0,
        all_digits(decimal(n)),
        digits_value(decimal(n)) == n,
    decreases n,
{
    if n < 10 {
        let s = decimal(n);
        assert(s.drop_last() =~= Seq::<char>::empty());
        assert(digits_value(s.drop_last()) == 0);
        assert(s.last() == digit_char(n));
    } else {
        lemma_decimal(n / 10);
        let s = decimal(n);
        assert(s.drop_last() =~= decimal(n / 10));
        assert(s.last() == digit_char(n % 10));
    }
}

/// What a numeral denotes is read back from its text.
pub proof fn lemma_parse_decimal(n: nat, max: nat)
    requires
        n <= max,
    ensures
        parse_unsigned(decimal(n), max) == Some(n),
{
    lemma_decimal(n);
    assert(is_digit(decimal(n)[0]));
}

/// The digits of a prefix denote no more than the digits of the whole.
pub proof fn lemma_digits_value_prefix(s: Seq<char>, k: int)
    requires
        0 <= k <= s.len(),
    ensures
        digits_value(s.subrange(0, k)) <= digits_value(s),
    decreases s.len() - k,
{
    if k == s.len() {
        assert(s.subrange(0, k) =~= s);
    } else {
        lemma_digits_value_prefix(s, k + 1);
        let t = s.subrange(0, k + 1);
        assert(t.drop_last() =~= s.subrange(0, k));
    }
}

/// The text of one decimal digit.
fn digit_str(d: u8) -> (r: &'static str)
    requires
        d < 10,
    ensures
        r@ == seq![digit_char(d as nat)],
{
    proof {
        reveal_strlit("0");
        reveal_strlit("1");
        reveal_strlit("2");
        reveal_strlit("3");
        reveal_strlit("4");
        reveal_strlit("5");
        reveal_strlit("6");
        reveal_strlit("7");
        reveal_strlit("8");
        reveal_strlit("9");
    }
    let r = if d == 0 {
        "0"
    } else if d == 1 {
        "1"
    } else if d == 2 {
        "2"
    } else if d == 3 {
        "3"
    } else if d == 4 {
        "4"
    } else if d == 5 {
        "5"
    } else if d == 6 {
        "6"
    } else if d == 7 {
        "7"
    } else if d == 8 {
        "8"
    } else {
        "9"
    };
    assert(r@ =~= seq![digit_char(d as nat)]);
    r
}

/// Appends the decimal numeral of `n` to `out`.
pub fn push_decimal(out: &mut String, n: u64)
    ensures
        final(out)@ == old(out)@ + decimal(n as nat),
    decreases n,
{
    if n >= 10 {
        push_decimal(out, n / 10);
        out.append(digit_str((n % 10) as u8));
        assert(out@ =~= old(out)@ + decimal(n as nat));
    } else {
        out.append(digit_str(n as u8));
    }
}

/// Reads the digits that stand in `bytes` from `from` up to `to`.
pub fn parse_digits_bytes(
    bytes: &[u8],
    from: usize,
    to: usize,
    max: u64,
    Ghost(chars): Ghost<Seq<char>>,
) -> (r: Option<u64>)
    requires
        ascii_of(bytes@, chars),
        from <= to <= bytes.len(),
    ensures
        match parse_digits(chars.subrange(from as int, to as int), max as nat) {
            Some(n) => r == Some(n as u64),
            None => r is None,
        },
{
    let ghost body = chars.subrange(from as int, to as int);
    if from == to {
        return None;
    }
    let mut i: usize = from;
    let mut acc: u64 = 0;
    proof {
        assert(body.subrange(0, 0) =~= Seq::<char>::empty());
    }
    while i < to
        invariant
            ascii_of(bytes@, chars),
            from <= i <= to <= bytes.len(),
            from < to,
            body == chars.subrange(from as int, to as int),
            all_digits(body.subrange(0, i - from)),
            acc == digits_value(body.subrange(0, i - from)),
            acc <= max,
        decreases to - i,
    {
        let b: u8 = bytes[i];
        assert(body[i - from] == chars[i as int]);
        if b < 48 || b > 57 {
            assert(!is_digit(body[i - from]));
            return None;
        }
        let next: u128 = (acc as u128) * 10 + ((b - 48) as u128);
        proof {
            let t = body.subrange(0, i - from + 1);
            assert(t.drop_last() =~= body.subrange(0, i - from));
            assert(t.last() == body[i - from]);
            assert(digit_value(body[i - from]) == (b - 48) as nat);
            assert(digits_value(t) == next);
            assert forall|k: int| 0 <= k < t.len() implies is_digit(#[trigger] t[k]) by {
                if k < i - from {
                    assert(t[k] == body.subrange(0, i - from)[k]);
                }
            }
            lemma_digits_value_prefix(body, i - from + 1);
        }
        if next > max as u128 {
            proof {
                assert(digits_value(body) > max);
            }
            return None;
        }
        acc = next as u64;
        i = i + 1;
    }
    proof {
        assert(body.subrange(0, i - from) =~= body);
    }
    Some(acc)
}

/// Reads the numeral that stands in `bytes` from `from` up to `to`.
pub fn parse_number(
    bytes: &[u8],
    from: usize,
    to: usize,
    max: u64,
    Ghost(chars): Ghost<Seq<char>>,
) -> (r: Option<u64>)
    requires
        ascii_of(bytes@, chars),
        from <= to <= bytes.len(),
    ensures
        match parse_unsigned(chars.subrange(from as int, to as int), max as nat) {
            Some(n) => r == Some(n as u64),
            None => r is None,
        },
{
    let ghost s = chars.subrange(from as int, to as int);
    let mut start: usize = from;
    if start < to && bytes[start] == 43 {
        start = start + 1;
    }
    assert(numeral_body(s) =~= chars.subrange(start as int, to as int)) by {
        if from < to {
            assert(s[0] == chars[from as int]);
        }
    }
    parse_digits_bytes(bytes, start, to, max, Ghost(chars))
}

/// Reads the signed numeral that stands in `bytes` from `from` up to `to`.
pub fn parse_signed_bytes(bytes: &[u8], from: usize, to: usize, Ghost(chars): Ghost<Seq<char>>) -> (r:
    Option<i64>)
    requires
        ascii_of(bytes@, chars),
        from <= to <= bytes.len(),
    ensures
        match parse_signed(chars.subrange(from as int, to as int)) {
            Some(n) => r == Some(n as i64),
            None => r is None,
        },
{
    let ghost s = chars.subrange(from as int, to as int);
    if from < to && bytes[from] == 45 {
        assert(s[0] == chars[from as int]);
        assert(s.subrange(1, s.len() as int) =~= chars.subrange(from + 1, to as int));
        match parse_digits_bytes(bytes, from + 1, to, 0x8000_0000_0000_0000, Ghost(chars)) {
            Some(n) => {
                if n == 0x8000_0000_0000_0000 {
                    Some(i64::MIN)
                } else {
                    Some(-(n as i64))
                }
            },
            None => None,
        }
    } else {
        proof {
            if from < to {
                assert(s[0] == chars[from as int]);
            }
        }
        match parse_number(bytes, from, to, 0x7fff_ffff_ffff_ffff, Ghost(chars)) {
            Some(n) => Some(n as i64),
            None => None,
        }
    }
}

/// The first position at or after `from`, and before `to`, where the byte
/// `c` stands; `to` where there is none.
pub fn find_byte(bytes: &[u8], c: u8, from: usize, to: usize, Ghost(chars): Ghost<Seq<char>>) -> (r:
    usize)
    requires
        ascii_of(bytes@, chars),
        from <= to <= bytes.len(),
        c < 128,
    ensures
        from <= r <= to,
        r < to ==> chars[r as int] == c as char,
        forall|i: int| from <= i < r ==> chars[i] != c as char,
{
    let mut i: usize = from;
    while i < to
        invariant
            ascii_of(bytes@, chars),
            from <= i <= to <= bytes.len(),
            c < 128,
            forall|k: int| from <= k < i ==> chars[k] != c as char,
        decreases to - i,
    {
        if bytes[i] == c {
            assert(chars[i as int] as u8 == c);
            assert(chars[i as int] == c as char);
            return i;
        }
        assert(chars[i as int] != c as char);
        i = i + 1;
    }
    to
}

/// The last position at or after `from`, and before `to`, where the byte `c`
/// stands; `from - 1` where there is none, which is `None` here.
pub fn rfind_byte(bytes: &[u8], c: u8, from: usize, to: usize, Ghost(chars): Ghost<Seq<char>>) -> (r:
    Option<usize>)
    requires
        ascii_of(bytes@, chars),
        from <= to <= bytes.len(),
        c < 128,
    ensures
        match r {
            Some(at) => from <= at < to && chars[at as int] == c as char && forall|i: int|
                at < i < to ==> chars[i] != c as char,
            None => forall|i: int| from <= i < to ==> chars[i] != c as char,
        },
{
    let mut i: usize = to;
    while i > from
        invariant
            ascii_of(bytes@, chars),
            from <= i <= to <= bytes.len(),
            c < 128,
            forall|k: int| i <= k < to ==> chars[k] != c as char,
        decreases i - from,
    {
        i = i - 1;
        if bytes[i] == c {
            assert(chars[i as int] == c as char);
            return Some(i);
        }
        assert(chars[i as int] != c as char);
    }
    None
}

/// `a` comes before `b`, going by their bytes from the place `i` on: the
/// first byte in which they differ decides, and where one ends before they
/// differ, it comes first.
pub open spec fn before_from(a: Seq<u8>, b: Seq<u8>, i: int) -> bool
    decreases a.len() - i,
{
    if i < 0 || i >= b.len() {
        false
    } else if i >= a.len() {
        true
    } else if a[i] != b[i] {
        a[i] < b[i]
    } else {
        before_from(a, b, i + 1)
    }
}

/// `a` comes before `b` in the order of their bytes.
pub open spec fn bytes_before(a: Seq<u8>, b: Seq<u8>) -> bool {
    before_from(a, b, 0)
}

/// What comes before something that comes before a third comes before the
/// third.
pub proof fn lemma_before_transitive(a: Seq<u8>, b: Seq<u8>, c: Seq<u8>, i: int)
    requires
        before_from(a, b, i),
        before_from(b, c, i),
    ensures
        before_from(a, c, i),
    decreases a.len() - i,
{
    if i < a.len() && i < b.len() && i < c.len() && a[i] == b[i] && b[i] == c[i] {
        lemma_before_transitive(a, b, c, i + 1);
    }
}

/// Of two byte strings that agree up to `i`, one comes before the other or
/// they are the same, and only one of the three holds.
pub proof fn lemma_before_total(a: Seq<u8>, b: Seq<u8>, i: int)
    requires
        0 <= i <= a.len(),
        i <= b.len(),
        a.subrange(0, i) == b.subrange(0, i),
    ensures
        before_from(a, b, i) || before_from(b, a, i) || a == b,
        !(before_from(a, b, i) && before_from(b, a, i)),
        a == b ==> !before_from(a, b, i),
    decreases a.len() - i,
{
    if i < a.len() && i < b.len() {
        if a[i] == b[i] {
            assert(a.subrange(0, i + 1) =~= a.subrange(0, i).push(a[i]));
            assert(b.subrange(0, i + 1) =~= b.subrange(0, i).push(b[i]));
            lemma_before_total(a, b, i + 1);
        } else if a == b {
            assert(false);
        }
    } else if i == a.len() && i == b.len() {
        assert(a =~= a.subrange(0, i));
        assert(b =~= b.subrange(0, i));
    }
}

/// Whether the text `a` comes before the text `b` in the order of their
/// bytes.
pub fn text_before(a: &str, b: &str) -> (r: bool)
    ensures
        r == bytes_before(a.spec_bytes(), b.spec_bytes()),
{
    let x = a.as_bytes();
    let y = b.as_bytes();
    let mut i: usize = 0;
    loop
        invariant
            x@ == a.spec_bytes(),
            y@ == b.spec_bytes(),
            i <= x@.len(),
            i <= y@.len(),
            bytes_before(x@, y@) == before_from(x@, y@, i as int),
        decreases x@.len() - i,
    {
        if i >= y.len() {
            return false;
        }
        if i >= x.len() {
            return true;
        }
        if x[i] != y[i] {
            return x[i] < y[i];
        }
        i = i + 1;
    }
}

} // verus!
