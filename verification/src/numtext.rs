//! How integers are written in decimal ASCII text.
use vstd::prelude::*;

verus! {

/// The canonical decimal text of `n`: no leading zeros, and `0` for zero.
pub open spec fn nat_text(n: nat) -> Seq<u8>
    decreases n,
{
    if n < 10 {
        seq![(48 + n) as u8]
    } else {
        nat_text(n / 10).push((48 + n % 10) as u8)
    }
}

/// The canonical decimal text of `i`, with a minus sign when it is negative.
pub open spec fn int_text(i: int) -> Seq<u8> {
    if i < 0 {
        seq![45u8] + nat_text((-i) as nat)
    } else {
        nat_text(i as nat)
    }
}

/// The number that ASCII decimal digits denote.
pub open spec fn ascii_value(t: Seq<u8>) -> nat
    decreases t.len(),
{
    if t.len() == 0 {
        0
    } else {
        ascii_value(t.drop_last()) * 10 + (t.last() - 48) as nat
    }
}

/// The integer that a decimal text with an optional minus sign denotes.
pub open spec fn int_value(t: Seq<u8>) -> int {
    if t.len() > 0 && t[0] == 45 {
        -(ascii_value(t.drop_first()) as int)
    } else {
        ascii_value(t) as int
    }
}

/// Every byte is one of the ASCII characters `0` to `9`.
pub open spec fn all_ascii_digits(t: Seq<u8>) -> bool {
    forall|i: int| 0 <= i < t.len() ==> 48 <= #[trigger] t[i] <= 57
}

/// The first index at or after `p` that holds `b`, or the length when there is none.
pub open spec fn find_byte(s: Seq<u8>, p: nat, b: u8) -> nat
    decreases s.len() - p,
{
    if p < s.len() {
        if s[p as int] == b {
            p
        } else {
            find_byte(s, p + 1, b)
        }
    } else {
        s.len()
    }
}

pub proof fn lemma_nat_text_digits(n: nat)
    ensures
        nat_text(n).len() >= 1,
        all_ascii_digits(nat_text(n)),
        ascii_value(nat_text(n)) == n,
        n >= 10 ==> nat_text(n).drop_last() == nat_text(n / 10),
    decreases n,
{
    if n >= 10 {
        lemma_nat_text_digits(n / 10);
        let t = nat_text(n);
        assert(t.drop_last() =~= nat_text(n / 10));
        assert(t.last() == (48 + n % 10) as u8);
        assert(ascii_value(t) == ascii_value(t.drop_last()) * 10 + (t.last() - 48) as nat);
        assert((n / 10) * 10 + n % 10 == n);
        assert(all_ascii_digits(t)) by {
            assert forall|i: int| 0 <= i < t.len() implies 48 <= #[trigger] t[i] <= 57 by {
                if i < t.len() - 1 {
                    assert(t[i] == nat_text(n / 10)[i]);
                }
            }
        }
    } else {
        let t = nat_text(n);
        assert(t.drop_last() =~= Seq::<u8>::empty());
        assert(ascii_value(t) == ascii_value(t.drop_last()) * 10 + (t.last() - 48) as nat);
    }
}

/// Reading the canonical text of an integer gives it back.
pub proof fn lemma_int_text_value(i: int)
    ensures
        int_value(int_text(i)) == i,
        int_text(i).len() >= 1,
{
    if i < 0 {
        lemma_nat_text_digits((-i) as nat);
        let t = int_text(i);
        assert(t.drop_first() =~= nat_text((-i) as nat));
    } else {
        lemma_nat_text_digits(i as nat);
        let t = nat_text(i as nat);
        assert(48 <= t[0] <= 57);
    }
}

pub proof fn lemma_find_byte_bounds(s: Seq<u8>, p: nat, b: u8)
    requires
        p <= s.len(),
    ensures
        p <= find_byte(s, p, b) <= s.len(),
        find_byte(s, p, b) < s.len() ==> s[find_byte(s, p, b) as int] == b,
        forall|i: int| p <= i < find_byte(s, p, b) ==> s[i] != b,
    decreases s.len() - p,
{
    if p < s.len() && s[p as int] != b {
        lemma_find_byte_bounds(s, p + 1, b);
    }
}

/// The decimal text of `n`.
pub fn u64_text(n: u64) -> (r: Vec<u8>)
    ensures
        r@ == nat_text(n as nat),
    decreases n,
{
    if n < 10 {
        let d: u8 = n as u8;
        vec![48u8 + d]
    } else {
        let mut r = u64_text(n / 10);
        let d: u8 = (n % 10) as u8;
        r.push(48u8 + d);
        r
    }
}

} // verus!
