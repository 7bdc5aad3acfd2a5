//! What holds of unsigned numbers across operations.
use super::digit_ops::{frac_len, is_normalized, scaled_value};
use super::order::{compare_nat, lemma_number_cmp_equal, lemma_number_cmp_is_value_order, number_cmp};
use super::unsigned::{
    is_difference, is_product, is_sum, lemma_scaled_shift, max_nat, view_frac, view_scaled,
};
use std::cmp::Ordering;
use vstd::prelude::*;

verus! {

/// Two numbers in normal form with the same value have the same digits and separator.
pub proof fn lemma_normal_form_unique(x: (Seq<u8>, nat), y: (Seq<u8>, nat), f: nat)
    requires
        is_normalized(x.0, x.1),
        is_normalized(y.0, y.1),
        view_frac(x) <= f,
        view_frac(y) <= f,
        view_scaled(x, f) == view_scaled(y, f),
    ensures
        x == y,
{
    lemma_number_cmp_is_value_order(x.0, x.1, y.0, y.1, f);
    lemma_number_cmp_equal(x.0, x.1, y.0, y.1);
}

/// Comparing numbers in normal form orders them by value.
pub proof fn lemma_compare_is_value_order(x: (Seq<u8>, nat), y: (Seq<u8>, nat))
    requires
        is_normalized(x.0, x.1),
        is_normalized(y.0, y.1),
    ensures
        number_cmp(x.0, x.1, y.0, y.1) == compare_nat(
            view_scaled(x, max_nat(view_frac(x), view_frac(y))),
            view_scaled(y, max_nat(view_frac(x), view_frac(y))),
        ),
        (number_cmp(x.0, x.1, y.0, y.1) == Ordering::Equal) <==> (x == y),
{
    lemma_number_cmp_is_value_order(x.0, x.1, y.0, y.1, max_nat(view_frac(x), view_frac(y)));
    lemma_number_cmp_equal(x.0, x.1, y.0, y.1);
}

/// Addition gives the same number whichever operand comes first.
pub proof fn lemma_add_commutative(r: (Seq<u8>, nat), s: (Seq<u8>, nat), a: (Seq<u8>, nat), b: (
    Seq<u8>,
    nat,
))
    requires
        is_normalized(r.0, r.1),
        is_normalized(s.0, s.1),
        is_sum(r, a, b),
        is_sum(s, b, a),
    ensures
        r == s,
{
    lemma_normal_form_unique(r, s, max_nat(view_frac(a), view_frac(b)));
}

/// Subtracting what was added gives back the original number.
pub proof fn lemma_sub_undoes_add(
    a: (Seq<u8>, nat),
    b: (Seq<u8>, nat),
    s: (Seq<u8>, nat),
    d: (Seq<u8>, nat),
)
    requires
        is_normalized(a.0, a.1),
        is_normalized(b.0, b.1),
        is_normalized(s.0, s.1),
        is_normalized(d.0, d.1),
        is_sum(s, a, b),
        is_difference(d, s, b),
    ensures
        d == a,
{
    let f = max_nat(view_frac(a), view_frac(b));
    let g = max_nat(view_frac(s), view_frac(b));
    let k = (f - g) as nat;
    lemma_scaled_shift(d.0, d.1, g, k);
    lemma_scaled_shift(s.0, s.1, g, k);
    lemma_scaled_shift(b.0, b.1, g, k);
    assert((view_scaled(d, g) + view_scaled(b, g)) * super::digits::pow10(k) == view_scaled(d, g)
        * super::digits::pow10(k) + view_scaled(b, g) * super::digits::pow10(k)) by (nonlinear_arith);
    assert(g + k == f);
    lemma_normal_form_unique(d, a, f);
}

/// Adding back what was subtracted gives back the original number.
pub proof fn lemma_add_undoes_sub(
    a: (Seq<u8>, nat),
    b: (Seq<u8>, nat),
    d: (Seq<u8>, nat),
    s: (Seq<u8>, nat),
)
    requires
        is_normalized(a.0, a.1),
        is_normalized(b.0, b.1),
        is_normalized(d.0, d.1),
        is_normalized(s.0, s.1),
        is_difference(d, a, b),
        is_sum(s, d, b),
    ensures
        s == a,
{
    let f = max_nat(view_frac(a), view_frac(b));
    let g = max_nat(view_frac(d), view_frac(b));
    let k = (f - g) as nat;
    lemma_scaled_shift(d.0, d.1, g, k);
    lemma_scaled_shift(s.0, s.1, g, k);
    lemma_scaled_shift(b.0, b.1, g, k);
    assert((view_scaled(d, g) + view_scaled(b, g)) * super::digits::pow10(k) == view_scaled(d, g)
        * super::digits::pow10(k) + view_scaled(b, g) * super::digits::pow10(k)) by (nonlinear_arith);
    assert(g + k == f);
    lemma_normal_form_unique(s, a, f);
}

/// The sum in normal form is the number in normal form whose value is the sum of the values:
/// any number `c` in normal form with that value, at a scale that holds it, has the same
/// digits and separator.
pub proof fn lemma_sum_is_the_number(r: (Seq<u8>, nat), a: (Seq<u8>, nat), b: (Seq<u8>, nat), c: (
    Seq<u8>,
    nat,
))
    requires
        is_normalized(r.0, r.1),
        is_normalized(c.0, c.1),
        is_sum(r, a, b),
        view_frac(c) <= max_nat(view_frac(a), view_frac(b)),
        view_scaled(c, max_nat(view_frac(a), view_frac(b))) == view_scaled(
            a,
            max_nat(view_frac(a), view_frac(b)),
        ) + view_scaled(b, max_nat(view_frac(a), view_frac(b))),
    ensures
        r == c,
{
    lemma_normal_form_unique(r, c, max_nat(view_frac(a), view_frac(b)));
}

/// The difference in normal form is the number in normal form whose value is the difference of
/// the values.
pub proof fn lemma_difference_is_the_number(
    r: (Seq<u8>, nat),
    a: (Seq<u8>, nat),
    b: (Seq<u8>, nat),
    c: (Seq<u8>, nat),
)
    requires
        is_normalized(r.0, r.1),
        is_normalized(c.0, c.1),
        is_difference(r, a, b),
        view_frac(c) <= max_nat(view_frac(a), view_frac(b)),
        view_scaled(c, max_nat(view_frac(a), view_frac(b))) + view_scaled(
            b,
            max_nat(view_frac(a), view_frac(b)),
        ) == view_scaled(a, max_nat(view_frac(a), view_frac(b))),
    ensures
        r == c,
{
    lemma_normal_form_unique(r, c, max_nat(view_frac(a), view_frac(b)));
}

/// The product by a small integer in normal form is the number in normal form whose value is
/// that product.
pub proof fn lemma_product_is_the_number(r: (Seq<u8>, nat), a: (Seq<u8>, nat), k: nat, c: (
    Seq<u8>,
    nat,
))
    requires
        is_normalized(r.0, r.1),
        is_normalized(c.0, c.1),
        is_product(r, a, k),
        view_frac(c) <= view_frac(a),
        view_scaled(c, view_frac(a)) == super::digits::digits_value(a.0) * k,
    ensures
        r == c,
{
    lemma_normal_form_unique(r, c, view_frac(a));
}

} // verus!
