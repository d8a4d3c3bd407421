//! Small tools on texts that the cloud clients share.

use vstd::prelude::*;
use vstd::string::{StrSliceExecFns, StringExecFns};

verus! {

/// The texts of a list of strings.
pub open spec fn texts(v: Seq<String>) -> Seq<Seq<char>> {
    v.map_values(|s: String| s@)
}

/// Whether `needle` stands in `hay` at position `i`.
pub open spec fn occurs_at(hay: Seq<char>, needle: Seq<char>, i: int) -> bool {
    0 <= i && i + needle.len() <= hay.len() && hay.subrange(i, i + needle.len()) == needle
}

/// Whether `needle` stands somewhere in `hay`.
pub open spec fn occurs_in(hay: Seq<char>, needle: Seq<char>) -> bool {
    exists|i: int| occurs_at(hay, needle, i)
}

/// Whether `needle` stands somewhere in `hay`.
pub fn contains_text(hay: &str, needle: &str) -> (r: bool)
    ensures
        r == occurs_in(hay@, needle@),
{
    let n = hay.unicode_len();
    let m = needle.unicode_len();
    if m > n {
        assert forall|i: int| !occurs_at(hay@, needle@, i) by {}
        return false;
    }
    let mut i: usize = 0;
    while i <= n - m
        invariant
            m <= n,
            n == hay@.len(),
            m == needle@.len(),
            i <= n - m + 1,
            forall|k: int| 0 <= k < i ==> !occurs_at(hay@, needle@, k),
        decreases n - m + 1 - i,
    {
        let mut j: usize = 0;
        while j < m && hay.get_char(i + j) == needle.get_char(j)
            invariant
                j <= m,
                i + m <= n,
                n == hay@.len(),
                m == needle@.len(),
                forall|k: int| 0 <= k < j ==> hay@[i + k] == needle@[k],
            decreases m - j,
        {
            j += 1;
        }
        if j == m {
            assert(hay@.subrange(i as int, i + m) =~= needle@);
            assert(occurs_at(hay@, needle@, i as int));
            return true;
        }
        assert(!occurs_at(hay@, needle@, i as int)) by {
            if occurs_at(hay@, needle@, i as int) {
                assert(hay@.subrange(i as int, i + m)[j as int] == needle@[j as int]);
            }
        }
        i += 1;
    }
    assert forall|k: int| !occurs_at(hay@, needle@, k) by {}
    false
}

/// Where the last part of `text` starts, the parts being divided by
/// `divider`: behind the last divider, or at 0 without one.
pub open spec fn last_part_start(text: Seq<char>, divider: char) -> int
    decreases text.len(),
{
    if text.len() == 0 {
        0
    } else if text.last() == divider {
        text.len() as int
    } else {
        let before = last_part_start(text.drop_last(), divider);
        before
    }
}

/// The part of `text` behind its last `divider`; all of it without one.
pub open spec fn last_part(text: Seq<char>, divider: char) -> Seq<char> {
    text.subrange(last_part_start(text, divider), text.len() as int)
}

/// The part of `text` behind its last `divider`; all of it without one.
pub fn last_part_of(text: &str, divider: char) -> (r: String)
    ensures
        r@ == last_part(text@, divider),
{
    let n = text.unicode_len();
    let mut start: usize = n;
    while start > 0 && text.get_char(start - 1) != divider
        invariant
            start <= n,
            n == text@.len(),
            forall|k: int| start <= k < n ==> text@[k] != divider,
        decreases start,
    {
        start -= 1;
    }
    proof {
        lemma_last_part_unique(text@, divider, start as int);
    }
    String::from_str(text.substring_char(start, n))
}

/// The start of the last part is the one position with a divider before
/// it, or the beginning of the text, and no divider from it on.
pub proof fn lemma_last_part_unique(text: Seq<char>, divider: char, start: int)
    requires
        0 <= start <= text.len(),
        forall|k: int| start <= k < text.len() ==> text[k] != divider,
        start > 0 ==> text[start - 1] == divider,
    ensures
        last_part_start(text, divider) == start,
    decreases text.len(),
{
    if text.len() > 0 && text.last() != divider {
        lemma_last_part_unique(text.drop_last(), divider, start);
    }
}

/// The text of one decimal digit.
pub open spec fn digit_text(d: nat) -> Seq<char> {
    if d == 0 {
        "0"@
    } else if d == 1 {
        "1"@
    } else if d == 2 {
        "2"@
    } else if d == 3 {
        "3"@
    } else if d == 4 {
        "4"@
    } else if d == 5 {
        "5"@
    } else if d == 6 {
        "6"@
    } else if d == 7 {
        "7"@
    } else if d == 8 {
        "8"@
    } else {
        "9"@
    }
}

/// A number written in decimal digits, without leading zeros.
pub open spec fn decimal_text(n: nat) -> Seq<char>
    decreases n,
{
    if n < 10 {
        digit_text(n)
    } else {
        decimal_text(n / 10) + digit_text(n % 10)
    }
}

fn digit_str(d: u16) -> (r: &'static str)
    requires
        d < 10,
    ensures
        r@ == digit_text(d as nat),
{
    if d == 0 {
        "0"
    } else if d == 1 {
        "1"
    } else if d == 2 {
        "2"
    } else if d == 3 {
        "3"
    } else if d == 4 {
        "4"
    } else if d == 5 {
        "5"
    } else if d == 6 {
        "6"
    } else if d == 7 {
        "7"
    } else if d == 8 {
        "8"
    } else {
        "9"
    }
}

/// `n` written in decimal digits.
pub fn decimal_string(n: u16) -> (r: String)
    ensures
        r@ == decimal_text(n as nat),
    decreases n,
{
    if n < 10 {
        String::from_str(digit_str(n))
    } else {
        decimal_string(n / 10).concat(digit_str(n % 10))
    }
}

} // verus!
