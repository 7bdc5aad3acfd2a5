//! Column arithmetic on big-endian digit vectors, and the normal form of a decimal number.
use super::digits::{
    all_digits, digits_value, lemma_digits_value_bound, lemma_digits_value_concat,
    lemma_digits_value_leading_digit, lemma_digits_value_leading_zeros,
    lemma_digits_value_prepend, lemma_digits_value_trailing_zeros, lemma_pow10_add,
    lemma_pow10_monotonic, lemma_shifted_bound, pow10, shifted, zeros,
};
use vstd::prelude::*;

verus! {

/// The canonical representation of an unsigned decimal: at least one integer digit, no
/// leading zero in the integer part unless it is the single digit zero, and no trailing
/// zero in the fractional part.
pub open spec fn is_normalized(d: Seq<u8>, sep: nat) -> bool {
    &&& 1 <= sep <= d.len()
    &&& all_digits(d)
    &&& (d[0] != 0 || sep == 1)
    &&& (d.len() > sep ==> d.last() != 0)
}

/// Number of digits after the decimal separator.
pub open spec fn frac_len(d: Seq<u8>, sep: nat) -> nat {
    (d.len() - sep) as nat
}

/// The value of the number `d` with `sep` integer digits, multiplied by `10^f`; it is an
/// integer whenever `f` is at least the number of fractional digits.
pub open spec fn scaled_value(d: Seq<u8>, sep: nat, f: nat) -> nat {
    digits_value(d) * pow10((f - frac_len(d, sep)) as nat)
}

/// The value of the integer part.
pub open spec fn integer_value(d: Seq<u8>, sep: nat) -> nat {
    digits_value(d.subrange(0, sep as int))
}

/// The digits of the integer part.
pub open spec fn int_digits(d: Seq<u8>, sep: nat) -> Seq<u8> {
    d.subrange(0, sep as int)
}

/// The digits of the fractional part.
pub open spec fn frac_digits(d: Seq<u8>, sep: nat) -> Seq<u8> {
    d.subrange(sep as int, d.len() as int)
}

/// A scaled number is its integer part shifted by `f` places plus its fraction.
pub proof fn lemma_scaled_decompose(d: Seq<u8>, sep: nat, f: nat)
    requires
        sep <= d.len(),
        all_digits(d),
        frac_len(d, sep) <= f,
    ensures
        scaled_value(d, sep, f) == integer_value(d, sep) * pow10(f) + shifted(
            frac_digits(d, sep),
            f,
        ),
        shifted(frac_digits(d, sep), f) < pow10(f),
{
    let i = int_digits(d, sep);
    let fr = frac_digits(d, sep);
    assert(d =~= i + fr);
    lemma_digits_value_concat(i, fr);
    let g = (f - fr.len()) as nat;
    lemma_pow10_add(fr.len(), g);
    assert(fr.len() + g == f);
    let p = pow10(fr.len());
    let q = pow10(g);
    assert((digits_value(i) * p + digits_value(fr)) * q == digits_value(i) * (p * q)
        + digits_value(fr) * q) by (nonlinear_arith);
    assert(all_digits(fr));
    lemma_shifted_bound(fr, f);
}

/// A smaller integer part means a smaller number.
pub proof fn lemma_int_decides(x: Seq<u8>, xsep: nat, y: Seq<u8>, ysep: nat, f: nat)
    requires
        is_normalized(x, xsep),
        is_normalized(y, ysep),
        frac_len(x, xsep) <= f,
        frac_len(y, ysep) <= f,
        integer_value(x, xsep) < integer_value(y, ysep),
    ensures
        scaled_value(x, xsep, f) < scaled_value(y, ysep, f),
{
    lemma_scaled_decompose(x, xsep, f);
    lemma_scaled_decompose(y, ysep, f);
    let p = pow10(f);
    assert(integer_value(x, xsep) * p + p <= integer_value(y, ysep) * p) by (nonlinear_arith)
        requires
            integer_value(x, xsep) < integer_value(y, ysep),
    ;
}

/// A number with fewer integer digits has a smaller integer part.
pub proof fn lemma_sep_decides(x: Seq<u8>, xsep: nat, y: Seq<u8>, ysep: nat)
    requires
        is_normalized(x, xsep),
        is_normalized(y, ysep),
        xsep < ysep,
    ensures
        integer_value(x, xsep) < integer_value(y, ysep),
{
    let xi = int_digits(x, xsep);
    let yi = int_digits(y, ysep);
    assert(all_digits(xi));
    assert(all_digits(yi));
    lemma_digits_value_bound(xi);
    assert(yi[0] == y[0]);
    lemma_digits_value_leading_digit(yi);
    lemma_pow10_monotonic(xsep, (ysep - 1) as nat);
}

/// The value of three digits.
pub proof fn lemma_three_digits(x: u8, y: u8, z: u8)
    ensures
        digits_value(seq![x, y, z]) == 100 * x + 10 * y + z,
{
    assert(seq![x, y, z].drop_last() =~= seq![x, y]);
    assert(seq![x, y].drop_last() =~= seq![x]);
    assert(seq![x].drop_last() =~= Seq::<u8>::empty());
    assert(digits_value(Seq::<u8>::empty()) == 0);
    assert(seq![x].last() == x);
    assert(digits_value(seq![x]) == x);
    assert(digits_value(seq![x, y]) == 10 * x + y);
    assert(digits_value(seq![x, y, z]) == (10 * x + y) * 10 + z);
}

/// Splitting off the first digit of a suffix.
pub proof fn lemma_suffix_prepend(s: Seq<u8>, i: int, n: int)
    requires
        1 <= i <= n <= s.len(),
    ensures
        digits_value(s.subrange(i - 1, n)) == s[i - 1] * pow10((n - i) as nat) + digits_value(
            s.subrange(i, n),
        ),
{
    assert(s.subrange(i - 1, n) =~= seq![s[i - 1]] + s.subrange(i, n));
    lemma_digits_value_prepend(s[i - 1], s.subrange(i, n));
}

/// `zeros(left) + x + zeros(right)`.
pub fn pad_digits(x: &[u8], left: usize, right: usize) -> (r: Vec<u8>)
    requires
        left + x@.len() + right <= usize::MAX,
    ensures
        r@ == zeros(left as nat) + x@ + zeros(right as nat),
{
    let mut r: Vec<u8> = Vec::new();
    let mut i: usize = 0;
    while i < left
        invariant
            i <= left,
            r@ =~= zeros(i as nat),
        decreases left - i,
    {
        r.push(0);
        i = i + 1;
    }
    let mut j: usize = 0;
    while j < x.len()
        invariant
            j <= x@.len(),
            r@ =~= zeros(left as nat) + x@.subrange(0, j as int),
        decreases x@.len() - j,
    {
        r.push(x[j]);
        j = j + 1;
    }
    assert(x@.subrange(0, x@.len() as int) =~= x@);
    let mut k: usize = 0;
    while k < right
        invariant
            k <= right,
            r@ =~= zeros(left as nat) + x@ + zeros(k as nat),
        decreases right - k,
    {
        r.push(0);
        k = k + 1;
    }
    r
}

/// Sum of two digit vectors of the same length, with one more digit for the carry.
pub fn add_digit_vectors(a: &[u8], b: &[u8]) -> (r: Vec<u8>)
    requires
        a@.len() == b@.len(),
        a@.len() < usize::MAX,
        all_digits(a@),
        all_digits(b@),
    ensures
        r@.len() == a@.len() + 1,
        all_digits(r@),
        digits_value(r@) == digits_value(a@) + digits_value(b@),
{
    let n = a.len();
    let mut r: Vec<u8> = vec![0u8; n + 1];
    let mut carry: u8 = 0;
    let mut i: usize = n;
    assert(a@.subrange(n as int, n as int) =~= Seq::<u8>::empty());
    assert(b@.subrange(n as int, n as int) =~= Seq::<u8>::empty());
    assert(r@.subrange(n + 1, n + 1) =~= Seq::<u8>::empty());
    while i > 0
        invariant
            i <= n,
            n == a@.len(),
            n == b@.len(),
            r@.len() == n + 1,
            carry <= 1,
            all_digits(a@),
            all_digits(b@),
            forall|k: int| 0 <= k < r@.len() ==> #[trigger] r@[k] < 10,
            digits_value(r@.subrange(i + 1, n + 1)) + carry * pow10((n - i) as nat)
                == digits_value(a@.subrange(i as int, n as int)) + digits_value(
                b@.subrange(i as int, n as int),
            ),
        decreases i,
    {
        let ghost old_r = r@;
        let ai = a[i - 1];
        let bi = b[i - 1];
        assert(ai < 10 && bi < 10) by {
            assert(a@[i - 1] < 10);
            assert(b@[i - 1] < 10);
        }
        let s: u8 = ai + bi + carry;
        let d: u8 = s % 10;
        let c: u8 = s / 10;
        r[i] = d;
        proof {
            let p = pow10((n - i) as nat);
            lemma_suffix_prepend(a@, i as int, n as int);
            lemma_suffix_prepend(b@, i as int, n as int);
            lemma_suffix_prepend(r@, (i + 1) as int, (n + 1) as int);
            assert(r@.subrange(i + 1, n + 1) =~= old_r.subrange(i + 1, n + 1));
            assert(pow10((n - (i - 1)) as nat) == 10 * p);
            assert(d + 10 * c == ai + bi + carry);
            assert((d + 10 * c) * p == d * p + c * (10 * p)) by (nonlinear_arith);
            assert((ai + bi + carry) * p == ai * p + bi * p + carry * p) by (nonlinear_arith);
        }
        carry = c;
        i = i - 1;
    }
    let ghost before = r@;
    r[0] = carry;
    proof {
        assert(r@.subrange(1, n + 1) =~= before.subrange(1, n + 1));
        assert(a@.subrange(0, n as int) =~= a@);
        assert(b@.subrange(0, n as int) =~= b@);
        assert(r@ =~= seq![carry] + r@.subrange(1, n + 1));
        lemma_digits_value_prepend(carry, r@.subrange(1, n + 1));
    }
    r
}

/// Difference of two digit vectors of the same length, the first not smaller than the second.
pub fn sub_digit_vectors(a: &[u8], b: &[u8]) -> (r: Vec<u8>)
    requires
        a@.len() == b@.len(),
        all_digits(a@),
        all_digits(b@),
        digits_value(a@) >= digits_value(b@),
    ensures
        r@.len() == a@.len(),
        all_digits(r@),
        digits_value(r@) == digits_value(a@) - digits_value(b@),
{
    let n = a.len();
    let mut r: Vec<u8> = vec![0u8; n];
    let mut borrow: u8 = 0;
    let mut i: usize = n;
    assert(a@.subrange(n as int, n as int) =~= Seq::<u8>::empty());
    assert(b@.subrange(n as int, n as int) =~= Seq::<u8>::empty());
    assert(r@.subrange(n as int, n as int) =~= Seq::<u8>::empty());
    while i > 0
        invariant
            i <= n,
            n == a@.len(),
            n == b@.len(),
            r@.len() == n,
            borrow <= 1,
            all_digits(a@),
            all_digits(b@),
            forall|k: int| 0 <= k < r@.len() ==> #[trigger] r@[k] < 10,
            digits_value(r@.subrange(i as int, n as int)) - borrow * pow10((n - i) as nat)
                == digits_value(a@.subrange(i as int, n as int)) - digits_value(
                b@.subrange(i as int, n as int),
            ),
        decreases i,
    {
        let ghost old_r = r@;
        let ai = a[i - 1];
        let bi = b[i - 1];
        assert(ai < 10 && bi < 10) by {
            assert(a@[i - 1] < 10);
            assert(b@[i - 1] < 10);
        }
        let d: u8;
        let nb: u8;
        if ai >= bi + borrow {
            d = ai - bi - borrow;
            nb = 0;
        } else {
            d = ai + 10 - bi - borrow;
            nb = 1;
        }
        r.set(i - 1, d);
        proof {
            let p = pow10((n - i) as nat);
            lemma_suffix_prepend(a@, i as int, n as int);
            lemma_suffix_prepend(b@, i as int, n as int);
            lemma_suffix_prepend(r@, i as int, n as int);
            assert(r@.subrange(i as int, n as int) =~= old_r.subrange(i as int, n as int));
            assert(pow10((n - (i - 1)) as nat) == 10 * p);
            assert(d - 10 * nb == ai - bi - borrow);
            assert((d - 10 * nb) * p == d * p - nb * (10 * p)) by (nonlinear_arith);
            assert((ai - bi - borrow) * p == ai * p - bi * p - borrow * p) by (nonlinear_arith);
        }
        borrow = nb;
        i = i - 1;
    }
    proof {
        assert(a@.subrange(0, n as int) =~= a@);
        assert(b@.subrange(0, n as int) =~= b@);
        assert(r@.subrange(0, n as int) =~= r@);
        assert(all_digits(r@));
        lemma_digits_value_bound(r@);
        if borrow == 1 {
            assert(digits_value(r@) - pow10(n as nat) < 0);
        }
    }
    r
}

/// The product of a digit vector and a small factor, with three more leading digits.
pub fn mul_digit_vector(a: &[u8], k: u8) -> (r: Vec<u8>)
    requires
        all_digits(a@),
        a@.len() + 3 <= usize::MAX,
    ensures
        r@.len() == a@.len() + 3,
        all_digits(r@),
        digits_value(r@) == digits_value(a@) * k,
{
    let n = a.len();
    let mut r: Vec<u8> = vec![0u8; n + 3];
    let mut carry: u16 = 0;
    let mut i: usize = n;
    assert(a@.subrange(n as int, n as int) =~= Seq::<u8>::empty());
    assert(r@.subrange(n + 3, n + 3) =~= Seq::<u8>::empty());
    while i > 0
        invariant
            i <= n,
            n == a@.len(),
            r@.len() == n + 3,
            n + 3 <= usize::MAX,
            carry < 256,
            all_digits(a@),
            forall|j: int| 0 <= j < r@.len() ==> #[trigger] r@[j] < 10,
            digits_value(r@.subrange(i + 3, n + 3)) + carry * pow10((n - i) as nat)
                == digits_value(a@.subrange(i as int, n as int)) * k,
        decreases i,
    {
        let ghost old_r = r@;
        let ai = a[i - 1];
        assert(ai < 10) by {
            assert(a@[i - 1] < 10);
        }
        assert((ai as u16) * (k as u16) <= 9 * 255) by (nonlinear_arith)
            requires
                ai < 10,
        ;
        let g: u16 = (ai as u16) * (k as u16) + carry;
        let d: u8 = (g % 10) as u8;
        let c: u16 = g / 10;
        r.set(i + 2, d);
        proof {
            let p = pow10((n - i) as nat);
            lemma_suffix_prepend(a@, i as int, n as int);
            lemma_suffix_prepend(r@, (i + 3) as int, (n + 3) as int);
            assert(r@.subrange(i + 3, n + 3) =~= old_r.subrange(i + 3, n + 3));
            assert(pow10((n - (i - 1)) as nat) == 10 * p);
            assert(d + 10 * c == ai * k + carry);
            assert((d + 10 * c) * p == d * p + c * (10 * p)) by (nonlinear_arith);
            assert((ai * k + carry) * p == ai * k * p + carry * p) by (nonlinear_arith);
            assert((ai * p + digits_value(a@.subrange(i as int, n as int))) * k == ai * k * p
                + digits_value(a@.subrange(i as int, n as int)) * k) by (nonlinear_arith);
        }
        carry = c;
        i = i - 1;
    }
    let ghost before = r@;
    let hundreds = (carry / 100) as u8;
    let tens = ((carry / 10) % 10) as u8;
    let units = (carry % 10) as u8;
    r.set(0, hundreds);
    r.set(1, tens);
    r.set(2, units);
    proof {
        let rest = r@.subrange(3, n + 3);
        assert(rest =~= before.subrange(3, n + 3));
        assert(a@.subrange(0, n as int) =~= a@);
        assert(r@ =~= seq![hundreds, tens, units] + rest);
        lemma_digits_value_concat(seq![hundreds, tens, units], rest);
        lemma_three_digits(hundreds, tens, units);
        assert(100 * hundreds + 10 * tens + units == carry);
    }
    r
}

/// The canonical form of the number with digits `v` and `sep` integer digits: leading zeros
/// of the integer part and trailing zeros of the fractional part are removed.
pub fn normalize_digits(v: &[u8], sep: usize) -> (r: (Vec<u8>, usize))
    requires
        1 <= sep <= v@.len(),
        all_digits(v@),
    ensures
        is_normalized(r.0@, r.1 as nat),
        r.1 <= sep,
        r.0@.len() <= v@.len(),
        frac_len(r.0@, r.1 as nat) <= frac_len(v@, sep as nat),
        digits_value(r.0@) * pow10((frac_len(v@, sep as nat) - frac_len(r.0@, r.1 as nat)) as nat)
            == digits_value(v@),
{
    let n = v.len();
    let mut k: usize = 0;
    while k + 1 < sep && v[k] == 0
        invariant
            k < sep,
            sep <= n,
            n == v@.len(),
            forall|j: int| 0 <= j < k ==> #[trigger] v@[j] == 0,
        decreases sep - k,
    {
        k = k + 1;
    }
    let mut e: usize = n;
    while e > sep && v[e - 1] == 0
        invariant
            sep <= e <= n,
            n == v@.len(),
            forall|j: int| e <= j < n ==> #[trigger] v@[j] == 0,
        decreases e,
    {
        e = e - 1;
    }
    let mut out: Vec<u8> = Vec::new();
    let mut i: usize = k;
    while i < e
        invariant
            k <= i <= e,
            e <= n,
            n == v@.len(),
            out@ =~= v@.subrange(k as int, i as int),
        decreases e - i,
    {
        out.push(v[i]);
        i = i + 1;
    }
    proof {
        let mid = v@.subrange(k as int, e as int);
        assert(v@ =~= zeros(k as nat) + mid + zeros((n - e) as nat));
        lemma_digits_value_concat(zeros(k as nat) + mid, zeros((n - e) as nat));
        lemma_digits_value_trailing_zeros(zeros(k as nat) + mid, (n - e) as nat);
        lemma_digits_value_leading_zeros(k as nat, mid);
        assert(all_digits(out@));
        assert(out@.len() > 0);
        assert(out@[0] == v@[k as int]);
        if out@.len() > sep - k {
            assert(out@.last() == v@[e - 1]);
        }
    }
    (out, sep - k)
}

} // verus!
