//! Lists of placeholders for statements with a varying number of values.

use vstd::prelude::*;
use vstd::string::*;

verus! {

/// `item`, `n` times, with `", "` between: the one `item` for `n` zero.
pub open spec fn placeholder_list(item: Seq<char>, n: nat) -> Seq<char>
    decreases n,
{
    if n <= 1 {
        item
    } else {
        placeholder_list(item, (n - 1) as nat) + ", "@ + item
    }
}

fn placeholders(item: &str, n: usize) -> (r: String)
    ensures
        r@ == placeholder_list(item@, n as nat),
{
    let mut out = item.to_owned();
    let mut i: usize = 1;
    while i < n
        invariant
            1 <= i,
            n > 0 ==> i <= n,
            n == 0 ==> i == 1,
            out@ == placeholder_list(item@, i as nat),
        decreases n - i,
    {
        out.append(", ");
        out.append(item);
        i = i + 1;
        assert(out@ =~= placeholder_list(item@, i as nat));
    }
    proof {
        assert(placeholder_list(item@, 0) == item@);
        assert(placeholder_list(item@, 1) == item@);
    }
    out
}

/// `n` placeholders for rows of one value: `(?), (?), (?)`.
pub fn placeholders_1(n: usize) -> (r: String)
    ensures
        r@ == placeholder_list("(?)"@, n as nat),
{
    placeholders("(?)", n)
}

/// `n` placeholders for rows of two values: `(?,?), (?,?)`.
pub fn placeholders_2(n: usize) -> (r: String)
    ensures
        r@ == placeholder_list("(?,?)"@, n as nat),
{
    placeholders("(?,?)", n)
}

} // verus!
