//! The mathematical meaning of a sequence of big-endian decimal digits.
use vstd::prelude::*;

verus! {

/// Ten to the power `n`.
pub open spec fn pow10(n: nat) -> nat
    decreases n,
{
    if n == 0 {
        1
    } else {
        10 * pow10((n - 1) as nat)
    }
}

/// Every element is a decimal digit.
pub open spec fn all_digits(s: Seq<u8>) -> bool {
    forall|i: int| 0 <= i < s.len() ==> #[trigger] s[i] < 10
}

/// The natural number that the big-endian digits `s` denote.
pub open spec fn digits_value(s: Seq<u8>) -> nat
    decreases s.len(),
{
    if s.len() == 0 {
        0
    } else {
        digits_value(s.drop_last()) * 10 + s.last() as nat
    }
}

/// A sequence of `n` zero digits.
pub open spec fn zeros(n: nat) -> Seq<u8> {
    Seq::new(n, |i: int| 0u8)
}

pub proof fn lemma_pow10_positive(n: nat)
    ensures
        pow10(n) >= 1,
    decreases n,
{
    if n > 0 {
        lemma_pow10_positive((n - 1) as nat);
    }
}

pub proof fn lemma_pow10_add(a: nat, b: nat)
    ensures
        pow10(a + b) == pow10(a) * pow10(b),
    decreases a,
{
    if a == 0 {
        assert(pow10(0) == 1);
        assert(a + b == b);
    } else {
        let a1 = (a - 1) as nat;
        lemma_pow10_add(a1, b);
        assert(pow10(a + b) == 10 * pow10((a1 + b) as nat));
        assert(pow10(a) == 10 * pow10(a1));
        assert(10 * (pow10(a1) * pow10(b)) == (10 * pow10(a1)) * pow10(b)) by (nonlinear_arith);
    }
}

pub proof fn lemma_pow10_monotonic(a: nat, b: nat)
    requires
        a <= b,
    ensures
        pow10(a) <= pow10(b),
    decreases b,
{
    if a < b {
        lemma_pow10_monotonic(a, (b - 1) as nat);
        lemma_pow10_positive((b - 1) as nat);
    }
}

/// The value of a concatenation: the left part is shifted by the length of the right part.
pub proof fn lemma_digits_value_concat(a: Seq<u8>, b: Seq<u8>)
    ensures
        digits_value(a + b) == digits_value(a) * pow10(b.len()) + digits_value(b),
    decreases b.len(),
{
    if b.len() == 0 {
        assert(a + b =~= a);
        assert(pow10(0) == 1);
        assert(digits_value(b) == 0);
    } else {
        let b0 = b.drop_last();
        lemma_digits_value_concat(a, b0);
        assert((a + b).drop_last() =~= a + b0);
        assert((a + b).last() == b.last());
        let va = digits_value(a);
        let vb0 = digits_value(b0);
        let p = pow10(b0.len());
        let l = b.last() as nat;
        assert(pow10(b.len()) == 10 * p);
        assert(digits_value(a + b) == digits_value(a + b0) * 10 + l);
        assert(digits_value(b) == vb0 * 10 + l);
        assert(digits_value(a + b0) == va * p + vb0);
        assert((va * p + vb0) * 10 + l == va * (10 * p) + (vb0 * 10 + l)) by (nonlinear_arith);
    }
}

/// A single digit is worth itself.
pub proof fn lemma_single_digit(d: u8)
    ensures
        digits_value(seq![d]) == d,
{
    assert(seq![d].drop_last() =~= Seq::<u8>::empty());
    assert(digits_value(Seq::<u8>::empty()) == 0);
    assert(seq![d].last() == d);
}

/// Anything times `10^0` is itself.
pub proof fn lemma_pow10_zero_one(x: nat)
    ensures
        pow10(0) == 1,
        pow10(1) == 10,
        x * pow10(0) == x,
        x * pow10(1) == x * 10,
{
    assert(pow10(0) == 1);
    assert(pow10(1) == 10 * pow10(0));
}

/// Appending one digit.
pub proof fn lemma_digits_value_push(a: Seq<u8>, d: u8)
    ensures
        digits_value(a.push(d)) == digits_value(a) * 10 + d,
{
    assert(a.push(d).drop_last() =~= a);
}

/// Prepending one digit.
pub proof fn lemma_digits_value_prepend(d: u8, a: Seq<u8>)
    ensures
        digits_value(seq![d] + a) == d * pow10(a.len()) + digits_value(a),
{
    lemma_digits_value_concat(seq![d], a);
    assert(seq![d].drop_last() =~= Seq::<u8>::empty());
    assert(digits_value(seq![d]) == digits_value(Seq::<u8>::empty()) * 10 + d as nat);
}

/// Digits are bounded by the power of ten of their length.
pub proof fn lemma_digits_value_bound(s: Seq<u8>)
    requires
        all_digits(s),
    ensures
        digits_value(s) < pow10(s.len()),
    decreases s.len(),
{
    if s.len() > 0 {
        let s0 = s.drop_last();
        assert(all_digits(s0));
        lemma_digits_value_bound(s0);
        assert(s.last() == s[s.len() - 1]);
        assert(digits_value(s0) * 10 + s.last() < pow10(s0.len()) * 10) by (nonlinear_arith)
            requires
                digits_value(s0) < pow10(s0.len()),
                s.last() < 10,
        ;
    }
}

/// Leading zeros do not change the value.
pub proof fn lemma_digits_value_leading_zeros(n: nat, s: Seq<u8>)
    ensures
        digits_value(zeros(n) + s) == digits_value(s),
{
    lemma_digits_value_concat(zeros(n), s);
    lemma_digits_value_zeros(n);
}

/// A run of zeros is worth nothing.
pub proof fn lemma_digits_value_zeros(n: nat)
    ensures
        digits_value(zeros(n)) == 0,
    decreases n,
{
    if n > 0 {
        assert(zeros(n).drop_last() =~= zeros((n - 1) as nat));
        lemma_digits_value_zeros((n - 1) as nat);
    }
}

/// Trailing zeros multiply by a power of ten.
pub proof fn lemma_digits_value_trailing_zeros(s: Seq<u8>, n: nat)
    ensures
        digits_value(s + zeros(n)) == digits_value(s) * pow10(n),
{
    lemma_digits_value_concat(s, zeros(n));
    lemma_digits_value_zeros(n);
}

/// The first digit of a sequence whose value is below `pow10(len - 1)` is zero.
pub proof fn lemma_digits_value_leading_digit(s: Seq<u8>)
    requires
        s.len() > 0,
        all_digits(s),
        s[0] != 0,
    ensures
        digits_value(s) >= pow10((s.len() - 1) as nat),
{
    let rest = s.subrange(1, s.len() as int);
    assert(s =~= seq![s[0]] + rest);
    lemma_digits_value_prepend(s[0], rest);
    assert(s[0] * pow10(rest.len()) >= pow10(rest.len())) by (nonlinear_arith)
        requires
            s[0] >= 1,
    ;
}

/// `digits_value(a)` shifted left so that `a` occupies the first `f` decimal places.
pub open spec fn shifted(a: Seq<u8>, f: nat) -> nat {
    digits_value(a) * pow10((f - a.len()) as nat)
}

/// The number of decimal digits of `n`, none for zero.
pub open spec fn num_digits(n: nat) -> nat
    decreases n,
{
    if n == 0 {
        0
    } else {
        1 + num_digits(n / 10)
    }
}

/// A number below `10^k` has at most `k` digits.
pub proof fn lemma_num_digits_bound(n: nat, k: nat)
    requires
        n < pow10(k),
    ensures
        num_digits(n) <= k,
    decreases k,
{
    if n > 0 {
        assert(k > 0);
        lemma_num_digits_bound(n / 10, (k - 1) as nat);
    }
}

/// A number with `k` digits lies between `10^(k-1)` and `10^k`.
pub proof fn lemma_num_digits_range(n: nat)
    ensures
        n < pow10(num_digits(n)),
        n > 0 ==> pow10((num_digits(n) - 1) as nat) <= n,
    decreases n,
{
    if n > 0 {
        lemma_num_digits_range(n / 10);
        if n / 10 > 0 {
            assert(pow10((num_digits(n) - 1) as nat) == 10 * pow10((num_digits(n / 10) - 1) as nat));
        }
    }
}

/// The elements of `s` from index `i` on.
pub open spec fn skip_usize(s: Seq<u8>, i: usize) -> Seq<u8> {
    s.skip(i as int)
}

/// `f - 1`, as a natural.
pub open spec fn pred(f: nat) -> nat {
    (f - 1) as nat
}

/// Splitting off the leading digit of a shifted value.
pub proof fn lemma_shifted_first(a: Seq<u8>, f: nat)
    requires
        a.len() > 0,
        a.len() <= f,
    ensures
        shifted(a, f) == a[0] * pow10(pred(f)) + shifted(a.drop_first(), pred(f)),
{
    let rest = a.drop_first();
    assert(a =~= seq![a[0]] + rest);
    lemma_digits_value_prepend(a[0], rest);
    let g = (f - a.len()) as nat;
    lemma_pow10_add(rest.len(), g);
    assert(rest.len() + g == pred(f));
    assert(((pred(f)) - rest.len()) as nat == g);
    let p = pow10(rest.len());
    let q = pow10(g);
    assert((a[0] * p + digits_value(rest)) * q == a[0] * (p * q) + digits_value(rest) * q)
        by (nonlinear_arith);
}

/// A shifted value stays below the next power of ten.
pub proof fn lemma_shifted_bound(a: Seq<u8>, f: nat)
    requires
        all_digits(a),
        a.len() <= f,
    ensures
        shifted(a, f) < pow10(f),
{
    lemma_digits_value_bound(a);
    let g = (f - a.len()) as nat;
    lemma_pow10_add(a.len(), g);
    lemma_pow10_positive(g);
    assert(digits_value(a) * pow10(g) < pow10(a.len()) * pow10(g)) by (nonlinear_arith)
        requires
            digits_value(a) < pow10(a.len()),
            pow10(g) >= 1,
    ;
}

/// The first differing leading digit decides between two shifted values.
pub proof fn lemma_first_digit_decides(a: Seq<u8>, b: Seq<u8>, f: nat)
    requires
        a.len() > 0,
        b.len() > 0,
        a.len() <= f,
        b.len() <= f,
        all_digits(a),
        all_digits(b),
        a[0] < b[0],
    ensures
        shifted(a, f) < shifted(b, f),
{
    lemma_shifted_first(a, f);
    lemma_shifted_first(b, f);
    assert(all_digits(a.drop_first()));
    lemma_shifted_bound(a.drop_first(), pred(f));
    let p = pow10(pred(f));
    assert(a[0] * p + p <= b[0] * p) by (nonlinear_arith)
        requires
            a[0] < b[0],
    ;
}

} // verus!
