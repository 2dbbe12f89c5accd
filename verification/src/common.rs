//! Shared helpers: wall-clock readings, the host's name, boolean and
//! period parsing, and slice concatenation.

use vstd::prelude::*;

use crate::names::{contains_char, prefix_before, str_contains_char, str_eq, str_prefix_before};

verus! {

/// Relies on std's `SystemTime::now` and `duration_since`: seconds since the
/// Unix epoch.  The clock decides the value; nothing is promised of it.
#[verifier::external_body]
pub fn unix_ts() -> u64 {
    let current_time = std::time::SystemTime::now();
    current_time.duration_since(std::time::UNIX_EPOCH).map(|d| d.as_secs()).unwrap_or(0)
}

/// Relies on std's `SystemTime::now` and `duration_since`: microseconds
/// since the Unix epoch, clipped to a word.  The clock decides the value;
/// nothing is promised of it.
#[verifier::external_body]
pub fn unix_ts_us() -> u64 {
    let current_time = std::time::SystemTime::now();
    let us = current_time.duration_since(std::time::UNIX_EPOCH).map(|d| d.as_micros()).unwrap_or(
        0,
    );
    if us > u64::MAX as u128 {
        u64::MAX
    } else {
        us as u64
    }
}

/// Relies on the gethostname crate's `gethostname`: the machine's host
/// name, with an unnameable host reported as unknown.  The machine decides
/// the value; nothing is promised of it.
#[verifier::external_body]
pub fn hostname() -> String {
    let host = gethostname::gethostname();
    host.to_str().unwrap_or("unknown").to_string()
}

/// The strings meaning true on the command line.
pub fn parse_bool(sbool: &str) -> (r: bool)
    ensures
        r == (sbool@ == "1"@ || sbool@ == "true"@),
{
    proof {
        reveal_strlit("1");
        reveal_strlit("true");
    }
    str_eq(sbool, "1") || str_eq(sbool, "true")
}

/// Three byte slices joined in order.
pub fn concat_slices(slices: [&[u8]; 3]) -> (r: Vec<u8>)
    ensures
        r@ == slices[0]@ + slices[1]@ + slices[2]@,
{
    let mut out: Vec<u8> = Vec::new();
    append_slice(&mut out, slices[0]);
    append_slice(&mut out, slices[1]);
    append_slice(&mut out, slices[2]);
    proof {
        assert(out@ =~= slices[0]@ + slices[1]@ + slices[2]@);
    }
    out
}

/// The slice's bytes appended, one after the other.
fn append_slice(out: &mut Vec<u8>, s: &[u8])
    ensures
        final(out)@ == old(out)@ + s@,
{
    let n = s.len();
    let mut i: usize = 0;
    proof {
        assert(out@ =~= old(out)@ + s@.take(0));
    }
    while i < n
        invariant
            n == s@.len(),
            0 <= i <= n,
            out@ == old(out)@ + s@.take(i as int),
        decreases n - i,
    {
        out.push(s[i]);
        proof {
            assert(out@ =~= old(out)@ + s@.take(i + 1 as int));
        }
        i = i + 1;
    }
    proof {
        assert(s@.take(n as int) =~= s@);
    }
}

/// True of the ten decimal digits.
pub open spec fn is_digit(c: char) -> bool {
    c == '0' || c == '1' || c == '2' || c == '3' || c == '4' || c == '5' || c == '6' || c == '7'
        || c == '8' || c == '9'
}

/// The value of one decimal digit.
pub open spec fn digit_val(c: char) -> int {
    if c == '0' {
        0
    } else if c == '1' {
        1
    } else if c == '2' {
        2
    } else if c == '3' {
        3
    } else if c == '4' {
        4
    } else if c == '5' {
        5
    } else if c == '6' {
        6
    } else if c == '7' {
        7
    } else if c == '8' {
        8
    } else {
        9
    }
}

/// Every character is a decimal digit.
pub open spec fn all_digits(s: Seq<char>) -> bool {
    forall|i: int| 0 <= i < s.len() ==> is_digit(#[trigger] s[i])
}

/// The number a digit string denotes.
pub open spec fn digits_val(s: Seq<char>) -> int
    decreases s.len(),
{
    if s.len() == 0 {
        0
    } else {
        digits_val(s.drop_last()) * 10 + digit_val(s.last())
    }
}

/// A longer digit string denotes no smaller a number.
proof fn lemma_digits_val_monotone(s: Seq<char>, i: int)
    requires
        0 <= i <= s.len(),
        all_digits(s),
    ensures
        digits_val(s.take(i)) <= digits_val(s),
        digits_val(s) >= 0,
    decreases s.len(),
{
    if s.len() == 0 {
        assert(s.take(i) =~= s);
    } else {
        lemma_digits_val_monotone(s.drop_last(), if i <= s.len() - 1 {
            i
        } else {
            i - 1
        });
        assert(digit_val(s.last()) >= 0);
        if i == s.len() {
            assert(s.take(i) =~= s);
        } else {
            assert(s.drop_last().take(i) =~= s.take(i));
        }
    }
}

/// Parse an unsigned decimal number: the digits' value when the string is
/// nonempty, all digits, and in range.
pub fn parse_u64(s: &str) -> (r: Option<u64>)
    ensures
        r is Some <==> s@.len() > 0 && all_digits(s@) && digits_val(s@) <= u64::MAX,
        r is Some ==> r->0 == digits_val(s@),
{
    let n = s.unicode_len();
    if n == 0 {
        return None;
    }
    let mut acc: u64 = 0;
    let mut i: usize = 0;
    while i < n
        invariant
            n == s@.len(),
            0 < n,
            0 <= i <= n,
            all_digits(s@.take(i as int)),
            acc == digits_val(s@.take(i as int)),
        decreases n - i,
    {
        let c = s.get_char(i);
        let d: u64 = if c == '0' {
            0
        } else if c == '1' {
            1
        } else if c == '2' {
            2
        } else if c == '3' {
            3
        } else if c == '4' {
            4
        } else if c == '5' {
            5
        } else if c == '6' {
            6
        } else if c == '7' {
            7
        } else if c == '8' {
            8
        } else if c == '9' {
            9
        } else {
            return None;
        };
        proof {
            let t1 = s@.take(i + 1 as int);
            assert(t1.drop_last() =~= s@.take(i as int));
            assert(t1.last() == s@[i as int]);
            assert(is_digit(s@[i as int]) && digit_val(s@[i as int]) == d);
        }
        if acc > (u64::MAX - d) / 10 {
            proof {
                assert(digits_val(s@.take(i + 1 as int)) > u64::MAX) by (nonlinear_arith)
                    requires
                        digits_val(s@.take(i + 1 as int)) == acc * 10 + d,
                        acc > (u64::MAX - d) / 10,
                        0 <= d <= 9,
                        acc <= u64::MAX,
                ;
                if all_digits(s@) {
                    lemma_digits_val_monotone(s@, i + 1 as int);
                }
            }
            return None;
        }
        proof {
            assert(acc * 10 + d <= u64::MAX) by (nonlinear_arith)
                requires
                    acc <= (u64::MAX - d) / 10,
                    0 <= d <= 9,
                    0 <= acc,
            ;
        }
        acc = acc * 10 + d;
        i = i + 1;
    }
    proof {
        assert(s@.take(n as int) =~= s@);
    }
    Some(acc)
}

/// Split a scrape argument `ADDR@PERIOD` into the address and its period in
/// seconds: one second when no period is given; when the text after the
/// separator is no number, the whole argument stands with a period of five.
pub fn parse_period(arg: &str) -> (r: (String, u64))
    ensures
        !contains_char(arg@, '@') ==> r.0@ == arg@ && r.1 == 1,
        contains_char(arg@, '@') ==> ({
            let rest = arg@.skip(prefix_before(arg@, '@').len() as int + 1);
            if rest.len() > 0 && all_digits(rest) && digits_val(rest) <= u64::MAX {
                r.0@ == prefix_before(arg@, '@') && r.1 == digits_val(rest)
            } else {
                r.0@ == arg@ && r.1 == 5
            }
        }),
{
    if !str_contains_char(arg, '@') {
        return (arg.to_owned(), 1);
    }
    let url = str_prefix_before(arg, '@');
    let n = arg.unicode_len();
    let ulen = url.unicode_len();
    proof {
        crate::names::lemma_prefix_len(arg@, '@');
    }
    let rest = arg.substring_char(ulen + 1, n);
    proof {
        assert(rest@ =~= arg@.skip(prefix_before(arg@, '@').len() as int + 1));
    }
    match parse_u64(rest) {
        Some(v) => (url, v),
        None => (arg.to_owned(), 5),
    }
}

} // verus!
