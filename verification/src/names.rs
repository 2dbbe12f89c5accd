//! Metric-name handling: the basename of a labelled name, the brace
//! validity rule enforced on push, and prefix extraction shared with the
//! job-identifier rules.

use vstd::prelude::*;

verus! {

/// `c` occurs somewhere in `s`.
pub open spec fn contains_char(s: Seq<char>, c: char) -> bool {
    exists|i: int| 0 <= i < s.len() && s[i] == c
}

/// The prefix of `s` up to (excluding) the first occurrence of `c`; the
/// whole of `s` when `c` does not occur.
pub open spec fn prefix_before(s: Seq<char>, c: char) -> Seq<char>
    decreases s.len(),
{
    if s.len() == 0 {
        s
    } else if s[0] == c {
        Seq::empty()
    } else {
        seq![s[0]] + prefix_before(s.drop_first(), c)
    }
}

/// The basename of a metric name: the prefix before its first `{`.  Label
/// variants of one metric share a basename.
pub open spec fn basename_of(s: Seq<char>) -> Seq<char> {
    prefix_before(s, '{')
}

/// A name is accepted on push unless it opens a label block and never
/// closes one.
pub open spec fn valid_name(s: Seq<char>) -> bool {
    !(contains_char(s, '{') && !contains_char(s, '}'))
}

/// The prefix stops exactly at the first occurrence: whenever nothing
/// before position `i` is a `c`, and position `i` is a `c` or the end, the
/// prefix is the first `i` characters.
pub proof fn lemma_prefix_before_take(s: Seq<char>, c: char, i: int)
    requires
        0 <= i <= s.len(),
        forall|j: int| 0 <= j < i ==> s[j] != c,
        i == s.len() || s[i] == c,
    ensures
        prefix_before(s, c) =~= s.take(i),
    decreases s.len(),
{
    if s.len() == 0 {
    } else if s[0] == c {
        assert(i == 0);
    } else {
        assert(i >= 1);
        lemma_prefix_before_take(s.drop_first(), c, i - 1);
        assert(s.drop_first().take(i - 1) =~= s.take(i).drop_first());
    }
}

/// The prefix never outruns the string, and stops short of it when the
/// character occurs.
pub proof fn lemma_prefix_len(s: Seq<char>, c: char)
    ensures
        prefix_before(s, c).len() <= s.len(),
        contains_char(s, c) ==> prefix_before(s, c).len() < s.len(),
    decreases s.len(),
{
    if s.len() > 0 && s[0] != c {
        lemma_prefix_len(s.drop_first(), c);
        if contains_char(s, c) {
            let i = choose|i: int| 0 <= i < s.len() && s[i] == c;
            assert(i >= 1);
            assert(s.drop_first()[i - 1] == c);
            assert(contains_char(s.drop_first(), c));
        }
    }
}

/// A name without `{` is its own basename.
pub proof fn lemma_basename_plain(s: Seq<char>)
    requires
        !contains_char(s, '{'),
    ensures
        basename_of(s) == s,
{
    lemma_prefix_before_take(s, '{', s.len() as int);
    assert(s.take(s.len() as int) =~= s);
}

/// Character-wise string equality.
pub fn str_eq(a: &str, b: &str) -> (r: bool)
    ensures
        r == (a@ == b@),
{
    let n = a.unicode_len();
    if n != b.unicode_len() {
        proof {
            assert(a@ != b@);
        }
        return false;
    }
    let mut i: usize = 0;
    while i < n
        invariant
            n == a@.len(),
            n == b@.len(),
            0 <= i <= n,
            forall|j: int| 0 <= j < i ==> a@[j] == b@[j],
        decreases n - i,
    {
        if a.get_char(i) != b.get_char(i) {
            proof {
                assert(a@ != b@);
            }
            return false;
        }
        i = i + 1;
    }
    proof {
        assert(a@ =~= b@);
    }
    true
}

/// True when `c` occurs in `name`.
pub fn str_contains_char(name: &str, c: char) -> (r: bool)
    ensures
        r == contains_char(name@, c),
{
    let n = name.unicode_len();
    let mut i: usize = 0;
    while i < n
        invariant
            n == name@.len(),
            0 <= i <= n,
            forall|j: int| 0 <= j < i ==> name@[j] != c,
        decreases n - i,
    {
        if name.get_char(i) == c {
            return true;
        }
        i = i + 1;
    }
    false
}

/// The prefix of `name` before the first occurrence of `c`.
pub fn str_prefix_before(name: &str, c: char) -> (r: String)
    ensures
        r@ == prefix_before(name@, c),
{
    let n = name.unicode_len();
    let mut i: usize = 0;
    while i < n
        invariant
            n == name@.len(),
            0 <= i <= n,
            forall|j: int| 0 <= j < i ==> name@[j] != c,
        decreases n - i,
    {
        if name.get_char(i) == c {
            proof {
                lemma_prefix_before_take(name@, c, i as int);
            }
            return name.substring_char(0, i).to_owned();
        }
        i = i + 1;
    }
    proof {
        lemma_prefix_before_take(name@, c, n as int);
    }
    name.substring_char(0, n).to_owned()
}

/// The basename of a metric name: everything before its first `{`.
pub fn basename(name: &str) -> (r: String)
    ensures
        r@ == basename_of(name@),
{
    str_prefix_before(name, '{')
}

/// Check the brace rule: a name that contains `{` but no `}` is rejected.
pub fn name_is_valid(name: &str) -> (r: bool)
    ensures
        r == valid_name(name@),
{
    !(str_contains_char(name, '{') && !str_contains_char(name, '}'))
}

} // verus!
