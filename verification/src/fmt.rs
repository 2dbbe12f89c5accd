//! Decimal rendering of machine integers, used by the text exposition
//! format.

use vstd::prelude::*;

verus! {

/// The character for one decimal digit.
pub open spec fn dec_digit(d: int) -> char {
    if d == 0 {
        '0'
    } else if d == 1 {
        '1'
    } else if d == 2 {
        '2'
    } else if d == 3 {
        '3'
    } else if d == 4 {
        '4'
    } else if d == 5 {
        '5'
    } else if d == 6 {
        '6'
    } else if d == 7 {
        '7'
    } else if d == 8 {
        '8'
    } else {
        '9'
    }
}

/// The decimal rendering of a natural number, most significant digit first.
pub open spec fn dec_str(n: nat) -> Seq<char>
    decreases n,
{
    if n < 10 {
        seq![dec_digit(n as int)]
    } else {
        dec_str(n / 10).push(dec_digit((n % 10) as int))
    }
}

/// The decimal rendering of a signed number: a minus sign before the
/// rendering of its magnitude.
pub open spec fn dec_str_signed(v: int) -> Seq<char> {
    if v < 0 {
        seq!['-'] + dec_str((-v) as nat)
    } else {
        dec_str(v as nat)
    }
}

/// The digit characters, in order.
proof fn lemma_digit_table()
    ensures
        "0123456789"@ =~= seq!['0', '1', '2', '3', '4', '5', '6', '7', '8', '9'],
        forall|d: int| 0 <= d < 10 ==> "0123456789"@[d] == dec_digit(d),
{
    reveal_strlit("0123456789");
}

/// Render an unsigned machine word in decimal.
pub fn u64_to_string(n: u64) -> (r: String)
    ensures
        r@ == dec_str(n as nat),
    decreases n,
{
    let digits = "0123456789";
    proof {
        lemma_digit_table();
    }
    if n < 10 {
        let idx = n as usize;
        let d = digits.substring_char(idx, idx + 1);
        proof {
            assert(d@ =~= dec_str(n as nat));
        }
        d.to_owned()
    } else {
        let mut s = u64_to_string(n / 10);
        let idx = (n % 10) as usize;
        let d = digits.substring_char(idx, idx + 1);
        s.append(d);
        proof {
            assert(s@ =~= dec_str(n as nat));
        }
        s
    }
}

/// Render a signed machine word in decimal.
pub fn i64_to_string(v: i64) -> (r: String)
    ensures
        r@ == dec_str_signed(v as int),
{
    if v >= 0 {
        u64_to_string(v as u64)
    } else {
        let mag = ((-(v + 1)) as u64) + 1;
        proof {
            assert(mag == -(v as int));
        }
        let mut s = String::new();
        s.append("-");
        let m = u64_to_string(mag);
        s.append(m.as_str());
        proof {
            reveal_strlit("-");
            assert(s@ =~= dec_str_signed(v as int));
        }
        s
    }
}

} // verus!
