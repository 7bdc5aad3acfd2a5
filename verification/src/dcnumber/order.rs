//! The order of digit sequences and of the numbers they denote.
use super::digit_ops::{
    frac_digits, frac_len, int_digits, integer_value, is_normalized, lemma_int_decides,
    lemma_scaled_decompose, lemma_sep_decides, scaled_value,
};
use super::digits::{
    all_digits, digits_value, lemma_first_digit_decides, lemma_pow10_positive,
    lemma_shifted_first, pow10, pred, shifted, skip_usize,
};
use std::cmp::Ordering;
use vstd::prelude::*;

verus! {

/// Lexicographic order of digit sequences, where a proper prefix comes first.
pub open spec fn lex_cmp(a: Seq<u8>, b: Seq<u8>) -> Ordering
    decreases a.len(),
{
    if a.len() == 0 {
        if b.len() == 0 {
            Ordering::Equal
        } else {
            Ordering::Less
        }
    } else if b.len() == 0 {
        Ordering::Greater
    } else if a[0] < b[0] {
        Ordering::Less
    } else if a[0] > b[0] {
        Ordering::Greater
    } else {
        lex_cmp(a.drop_first(), b.drop_first())
    }
}

/// The order of two naturals.
pub open spec fn compare_nat(x: nat, y: nat) -> Ordering {
    if x < y {
        Ordering::Less
    } else if x > y {
        Ordering::Greater
    } else {
        Ordering::Equal
    }
}

/// Only equal sequences compare equal.
pub proof fn lemma_lex_cmp_equal(a: Seq<u8>, b: Seq<u8>)
    ensures
        (lex_cmp(a, b) == Ordering::Equal) <==> (a == b),
    decreases a.len(),
{
    if a.len() > 0 && b.len() > 0 && a[0] == b[0] {
        lemma_lex_cmp_equal(a.drop_first(), b.drop_first());
        if a.drop_first() == b.drop_first() {
            assert(a =~= seq![a[0]] + a.drop_first());
            assert(b =~= seq![b[0]] + b.drop_first());
        }
    }
    if a == b && a.len() > 0 {
        assert(a.drop_first() == b.drop_first());
    }
    if a.len() == 0 && b.len() == 0 {
        assert(a =~= b);
    }
}

/// Swapping the arguments reverses the order.
pub proof fn lemma_lex_cmp_antisymmetric(a: Seq<u8>, b: Seq<u8>)
    ensures
        (lex_cmp(a, b) == Ordering::Less) <==> (lex_cmp(b, a) == Ordering::Greater),
    decreases a.len(),
{
    if a.len() > 0 && b.len() > 0 && a[0] == b[0] {
        lemma_lex_cmp_antisymmetric(a.drop_first(), b.drop_first());
    }
}

/// For digit sequences with no trailing zero, the lexicographic order is the order of their
/// values read as fractions `0.a` and `0.b`.
pub proof fn lemma_lex_cmp_fraction(a: Seq<u8>, b: Seq<u8>, f: nat)
    requires
        all_digits(a),
        all_digits(b),
        a.len() > 0 ==> a.last() != 0,
        b.len() > 0 ==> b.last() != 0,
        a.len() <= f,
        b.len() <= f,
    ensures
        lex_cmp(a, b) == compare_nat(shifted(a, f), shifted(b, f)),
    decreases a.len(),
{
    if a.len() == 0 {
        lemma_zero_shifted(a, f);
    }
    if b.len() == 0 {
        lemma_zero_shifted(b, f);
    }
    if a.len() == 0 && b.len() == 0 {
    } else if a.len() == 0 {
        lemma_positive_value(b, f);
    } else if b.len() == 0 {
        lemma_positive_value(a, f);
    } else if a[0] < b[0] {
        lemma_first_digit_decides(a, b, f);
    } else if a[0] > b[0] {
        lemma_first_digit_decides(b, a, f);
    } else {
        let a1 = a.drop_first();
        let b1 = b.drop_first();
        assert(all_digits(a1));
        assert(all_digits(b1));
        if a1.len() > 0 {
            assert(a1.last() == a.last());
        }
        if b1.len() > 0 {
            assert(b1.last() == b.last());
        }
        lemma_lex_cmp_fraction(a1, b1, pred(f));
        lemma_shifted_first(a, f);
        lemma_shifted_first(b, f);
    }
}

/// The empty sequence is worth nothing.
proof fn lemma_zero_shifted(a: Seq<u8>, f: nat)
    requires
        a.len() == 0,
    ensures
        shifted(a, f) == 0,
{
    assert(digits_value(a) == 0);
    assert(0 * pow10(((f - a.len()) as nat)) == 0) by (nonlinear_arith);
}

/// A sequence whose last digit is not zero denotes a positive value.
proof fn lemma_positive_value(a: Seq<u8>, f: nat)
    requires
        a.len() > 0,
        a.last() != 0,
        a.len() <= f,
    ensures
        shifted(a, f) > 0,
{
    assert(digits_value(a) >= a.last());
    lemma_pow10_positive(((f - a.len()) as nat));
    assert(digits_value(a) * pow10(((f - a.len()) as nat)) > 0) by (nonlinear_arith)
        requires
            digits_value(a) > 0,
            pow10(((f - a.len()) as nat)) >= 1,
    ;
}

/// For digit sequences of equal length, the lexicographic order is the order of their values.
pub proof fn lemma_lex_cmp_same_length(a: Seq<u8>, b: Seq<u8>)
    requires
        all_digits(a),
        all_digits(b),
        a.len() == b.len(),
    ensures
        lex_cmp(a, b) == compare_nat(digits_value(a), digits_value(b)),
    decreases a.len(),
{
    let f = a.len();
    lemma_shifted_same(a, f);
    lemma_shifted_same(b, f);
    if a.len() == 0 {
    } else if a[0] < b[0] {
        lemma_first_digit_decides(a, b, f);
    } else if a[0] > b[0] {
        lemma_first_digit_decides(b, a, f);
    } else {
        let a1 = a.drop_first();
        let b1 = b.drop_first();
        assert(all_digits(a1));
        assert(all_digits(b1));
        lemma_lex_cmp_same_length(a1, b1);
        lemma_shifted_first(a, f);
        lemma_shifted_first(b, f);
        lemma_shifted_same(a1, pred(f));
        lemma_shifted_same(b1, pred(f));
    }
}

/// A sequence shifted to its own length keeps its value.
proof fn lemma_shifted_same(a: Seq<u8>, f: nat)
    requires
        a.len() == f,
    ensures
        shifted(a, f) == digits_value(a),
{
    assert(((f - a.len()) as nat) == 0);
    assert(pow10(0) == 1);
    assert(digits_value(a) * 1 == digits_value(a));
}

/// Compares two digit sequences lexicographically.
pub fn cmp_digit_slices(a: &[u8], b: &[u8]) -> (r: Ordering)
    ensures
        r == lex_cmp(a@, b@),
{
    let mut i: usize = 0;
    assert(skip_usize(a@, i) =~= a@);
    assert(skip_usize(b@, i) =~= b@);
    while i < a.len() && i < b.len()
        invariant
            i <= a@.len(),
            i <= b@.len(),
            lex_cmp(a@, b@) == lex_cmp(skip_usize(a@, i), skip_usize(b@, i)),
        decreases a@.len() - i,
    {
        proof {
            assert(skip_usize(a@, i).drop_first() =~= a@.skip(i + 1));
            assert(skip_usize(b@, i).drop_first() =~= b@.skip(i + 1));
        }
        if a[i] < b[i] {
            return Ordering::Less;
        }
        if a[i] > b[i] {
            return Ordering::Greater;
        }
        i = i + 1;
    }
    if a.len() == b.len() {
        Ordering::Equal
    } else if a.len() < b.len() {
        Ordering::Less
    } else {
        Ordering::Greater
    }
}

/// The order of two numbers given by digits and separator: first by the number of integer
/// digits, then by the integer digits, then by the fractional digits.
pub open spec fn number_cmp(x: Seq<u8>, xsep: nat, y: Seq<u8>, ysep: nat) -> Ordering {
    if xsep < ysep {
        Ordering::Less
    } else if xsep > ysep {
        Ordering::Greater
    } else {
        match lex_cmp(int_digits(x, xsep), int_digits(y, ysep)) {
            Ordering::Equal => lex_cmp(frac_digits(x, xsep), frac_digits(y, ysep)),
            other => other,
        }
    }
}

/// On numbers in normal form, comparing digits is comparing values: the order of the
/// numbers scaled to any common number of fractional digits.
pub proof fn lemma_number_cmp_is_value_order(x: Seq<u8>, xsep: nat, y: Seq<u8>, ysep: nat, f: nat)
    requires
        is_normalized(x, xsep),
        is_normalized(y, ysep),
        frac_len(x, xsep) <= f,
        frac_len(y, ysep) <= f,
    ensures
        number_cmp(x, xsep, y, ysep) == compare_nat(
            scaled_value(x, xsep, f),
            scaled_value(y, ysep, f),
        ),
{
    if xsep < ysep {
        lemma_sep_decides(x, xsep, y, ysep);
        lemma_int_decides(x, xsep, y, ysep, f);
    } else if xsep > ysep {
        lemma_sep_decides(y, ysep, x, xsep);
        lemma_int_decides(y, ysep, x, xsep, f);
    } else {
        let xi = int_digits(x, xsep);
        let yi = int_digits(y, ysep);
        assert(all_digits(xi));
        assert(all_digits(yi));
        lemma_lex_cmp_same_length(xi, yi);
        if integer_value(x, xsep) < integer_value(y, ysep) {
            lemma_int_decides(x, xsep, y, ysep, f);
        } else if integer_value(x, xsep) > integer_value(y, ysep) {
            lemma_int_decides(y, ysep, x, xsep, f);
        } else {
            let xf = frac_digits(x, xsep);
            let yf = frac_digits(y, ysep);
            assert(all_digits(xf));
            assert(all_digits(yf));
            if xf.len() > 0 {
                assert(xf.last() == x.last());
            }
            if yf.len() > 0 {
                assert(yf.last() == y.last());
            }
            lemma_lex_cmp_fraction(xf, yf, f);
            lemma_scaled_decompose(x, xsep, f);
            lemma_scaled_decompose(y, ysep, f);
        }
    }
}

/// Numbers in normal form compare equal exactly when they have the same digits and
/// separator.
pub proof fn lemma_number_cmp_equal(x: Seq<u8>, xsep: nat, y: Seq<u8>, ysep: nat)
    requires
        xsep <= x.len(),
        ysep <= y.len(),
    ensures
        (number_cmp(x, xsep, y, ysep) == Ordering::Equal) <==> (x == y && xsep == ysep),
{
    lemma_lex_cmp_equal(int_digits(x, xsep), int_digits(y, ysep));
    lemma_lex_cmp_equal(frac_digits(x, xsep), frac_digits(y, ysep));
    if xsep == ysep && int_digits(x, xsep) == int_digits(y, ysep) && frac_digits(x, xsep)
        == frac_digits(y, ysep) {
        assert(x =~= int_digits(x, xsep) + frac_digits(x, xsep));
        assert(y =~= int_digits(y, ysep) + frac_digits(y, ysep));
    }
    if x == y && xsep == ysep {
        assert(int_digits(x, xsep) == int_digits(y, ysep));
    }
}

} // verus!
