//! Unsigned decimal numbers of any size, stored as big-endian decimal digits and the
//! position of the decimal separator.
use super::digit_ops::{
    add_digit_vectors, frac_digits, frac_len, int_digits, integer_value, is_normalized,
    lemma_suffix_prepend, mul_digit_vector, normalize_digits, pad_digits, scaled_value,
    sub_digit_vectors,
};
use super::digits::{
    all_digits, digits_value, lemma_digits_value_concat, lemma_digits_value_leading_zeros,
    lemma_digits_value_push, lemma_digits_value_trailing_zeros, lemma_num_digits_bound,
    lemma_pow10_add, lemma_pow10_zero_one, lemma_single_digit, num_digits, pow10, zeros,
};
use super::digits_type::DigitsType;
use super::error::ParseDCNumberError;
use super::radix_converters::radix_digit;
use crate::text::{ascii_chars, is_ascii_bytes, string_from_ascii};
use super::order::{cmp_digit_slices, lemma_number_cmp_equal, number_cmp};
use std::cmp::Ordering;
use vstd::prelude::*;
use vstd::std_specs::cmp::{PartialEqSpecImpl, PartialOrdSpecImpl};
use vstd::std_specs::convert::FromSpecImpl;
use vstd::std_specs::ops::{AddSpecImpl, MulSpecImpl, SubSpecImpl};

verus! {

/// An unsigned decimal number: big-endian decimal digits, of which the first `separator`
/// ones form the integer part and the rest the fractional part.
#[derive(Debug)]
pub struct UnsignedDCNumber {
    digits: DigitsType,
    separator: usize,
}

impl View for UnsignedDCNumber {
    type V = (Seq<u8>, nat);

    closed spec fn view(&self) -> (Seq<u8>, nat) {
        (self.digits@, self.separator as nat)
    }
}

/// The larger of two naturals.
pub open spec fn max_nat(a: nat, b: nat) -> nat {
    if a >= b {
        a
    } else {
        b
    }
}

/// The number of fractional digits of a number's view.
pub open spec fn view_frac(n: (Seq<u8>, nat)) -> nat {
    frac_len(n.0, n.1)
}

/// `n` times `10^f`.
pub open spec fn view_scaled(n: (Seq<u8>, nat), f: nat) -> nat {
    scaled_value(n.0, n.1, f)
}

/// `r` is the sum of `a` and `b`: at the larger of their scales, the values add up.
pub open spec fn is_sum(r: (Seq<u8>, nat), a: (Seq<u8>, nat), b: (Seq<u8>, nat)) -> bool {
    let f = max_nat(view_frac(a), view_frac(b));
    &&& view_frac(r) <= f
    &&& view_scaled(r, f) == view_scaled(a, f) + view_scaled(b, f)
}

/// `r` is `a` minus `b`.
pub open spec fn is_difference(r: (Seq<u8>, nat), a: (Seq<u8>, nat), b: (Seq<u8>, nat)) -> bool {
    let f = max_nat(view_frac(a), view_frac(b));
    &&& view_frac(r) <= f
    &&& view_scaled(r, f) + view_scaled(b, f) == view_scaled(a, f)
}

/// `r` is `a` times the natural `k`.
pub open spec fn is_product(r: (Seq<u8>, nat), a: (Seq<u8>, nat), k: nat) -> bool {
    &&& view_frac(r) <= view_frac(a)
    &&& view_scaled(r, view_frac(a)) == digits_value(a.0) * k
}

/// `a` is at least `b`.
pub open spec fn view_ge(a: (Seq<u8>, nat), b: (Seq<u8>, nat)) -> bool {
    let f = max_nat(view_frac(a), view_frac(b));
    view_scaled(a, f) >= view_scaled(b, f)
}

/// Padding a number with zeros on both sides keeps its value scaled to the new length.
proof fn lemma_pad_value(x: Seq<u8>, sep: nat, left: nat, right: nat)
    requires
        sep <= x.len(),
    ensures
        digits_value(zeros(left) + x + zeros(right)) == scaled_value(
            x,
            sep,
            frac_len(x, sep) + right,
        ),
{
    lemma_digits_value_trailing_zeros(zeros(left) + x, right);
    lemma_digits_value_leading_zeros(left, x);
    assert(((frac_len(x, sep) + right) - frac_len(x, sep)) as nat == right);
}

/// A normalized result computed at scale `f` is the number scaled to `f`.
proof fn lemma_normalized_scaled(v: Seq<u8>, sep: nat, r: Seq<u8>, rsep: nat)
    requires
        sep <= v.len(),
        rsep <= r.len(),
        frac_len(r, rsep) <= frac_len(v, sep),
        digits_value(r) * pow10((frac_len(v, sep) - frac_len(r, rsep)) as nat) == digits_value(v),
    ensures
        scaled_value(r, rsep, frac_len(v, sep)) == digits_value(v),
{
}

/// Scaling to a larger number of fractional digits multiplies by a power of ten.
pub proof fn lemma_scaled_shift(d: Seq<u8>, sep: nat, f: nat, g: nat)
    requires
        sep <= d.len(),
        frac_len(d, sep) <= f,
    ensures
        scaled_value(d, sep, f + g) == scaled_value(d, sep, f) * pow10(g),
{
    let a = (f - frac_len(d, sep)) as nat;
    lemma_pow10_add(a, g);
    assert(((f + g) - frac_len(d, sep)) as nat == a + g);
    assert(digits_value(d) * (pow10(a) * pow10(g)) == (digits_value(d) * pow10(a)) * pow10(g))
        by (nonlinear_arith);
}

/// Where the two operands of a column operation line up once their separators are aligned:
/// the fractional digit counts, the indices of their last aligned digits and the number of
/// integer digits by which each one is longer than the other.
#[inline(always)]
pub fn align_dcunsigned(lhs: &[u8], lhs_separator: usize, rhs: &[u8], rhs_separator: usize) -> (r: (
    usize,
    usize,
    usize,
    usize,
    usize,
    usize,
))
    requires
        1 <= lhs_separator <= lhs@.len(),
        1 <= rhs_separator <= rhs@.len(),
    ensures
        r.0 == lhs@.len() - lhs_separator,
        r.1 == rhs@.len() - rhs_separator,
        r.0 > r.1 ==> r.2 == lhs@.len() - (r.0 - r.1) - 1 && r.3 == rhs@.len() - 1,
        r.0 <= r.1 ==> r.3 == rhs@.len() - (r.1 - r.0) - 1 && r.2 == lhs@.len() - 1,
        lhs_separator > rhs_separator ==> r.4 == lhs_separator - rhs_separator && r.5 == 0,
        lhs_separator <= rhs_separator ==> r.5 == rhs_separator - lhs_separator && r.4 == 0,
{
    let lhs_fractional_digits = lhs.len() - lhs_separator;
    let rhs_fractional_digits = rhs.len() - rhs_separator;

    let lhs_aligned_index;
    let rhs_aligned_index;

    if lhs_fractional_digits > rhs_fractional_digits {
        let fractional_offset = lhs_fractional_digits - rhs_fractional_digits;
        lhs_aligned_index = (lhs.len() - fractional_offset) - 1;
        rhs_aligned_index = rhs.len() - 1;
    } else {
        let fractional_offset = rhs_fractional_digits - lhs_fractional_digits;
        rhs_aligned_index = (rhs.len() - fractional_offset) - 1;
        lhs_aligned_index = lhs.len() - 1;
    }

    let lhs_aligned_end;
    let rhs_aligned_end;
    if lhs_separator > rhs_separator {
        lhs_aligned_end = lhs_separator - rhs_separator;
        rhs_aligned_end = 0;
    } else {
        rhs_aligned_end = rhs_separator - lhs_separator;
        lhs_aligned_end = 0;
    }
    (
        lhs_fractional_digits,
        rhs_fractional_digits,
        lhs_aligned_index,
        rhs_aligned_index,
        lhs_aligned_end,
        rhs_aligned_end,
    )
}

/// Brings both operands to the same number of integer and fractional digits.
fn align_operands(lhs: &[u8], lhs_separator: usize, rhs: &[u8], rhs_separator: usize) -> (r: (
    Vec<u8>,
    Vec<u8>,
    usize,
    usize,
))
    requires
        1 <= lhs_separator <= lhs@.len(),
        1 <= rhs_separator <= rhs@.len(),
        lhs@.len() + rhs@.len() < usize::MAX,
        all_digits(lhs@),
        all_digits(rhs@),
    ensures
        ({
            let (a, b, sep, f) = r;
            &&& a@.len() == b@.len()
            &&& a@.len() == sep + f
            &&& a@.len() <= lhs@.len() + rhs@.len()
            &&& sep == if lhs_separator >= rhs_separator {
                lhs_separator
            } else {
                rhs_separator
            }
            &&& f == max_nat(frac_len(lhs@, lhs_separator as nat), frac_len(rhs@, rhs_separator as nat))
            &&& all_digits(a@)
            &&& all_digits(b@)
            &&& digits_value(a@) == scaled_value(lhs@, lhs_separator as nat, f as nat)
            &&& digits_value(b@) == scaled_value(rhs@, rhs_separator as nat, f as nat)
        }),
{
    let (lhs_fractional_digits, rhs_fractional_digits, _li, _ri, lhs_aligned_end, rhs_aligned_end) =
        align_dcunsigned(lhs, lhs_separator, rhs, rhs_separator);
    let fractional = if lhs_fractional_digits >= rhs_fractional_digits {
        lhs_fractional_digits
    } else {
        rhs_fractional_digits
    };
    let a = pad_digits(lhs, rhs_aligned_end, fractional - lhs_fractional_digits);
    let b = pad_digits(rhs, lhs_aligned_end, fractional - rhs_fractional_digits);
    let separator = if lhs_separator >= rhs_separator {
        lhs_separator
    } else {
        rhs_separator
    };
    proof {
        lemma_pad_value(
            lhs@,
            lhs_separator as nat,
            rhs_aligned_end as nat,
            (fractional - lhs_fractional_digits) as nat,
        );
        lemma_pad_value(
            rhs@,
            rhs_separator as nat,
            lhs_aligned_end as nat,
            (fractional - rhs_fractional_digits) as nat,
        );
        assert(all_digits(a@)) by {
            assert forall|i: int| 0 <= i < a@.len() implies #[trigger] a@[i] < 10 by {
                if rhs_aligned_end <= i < rhs_aligned_end + lhs@.len() {
                    assert(a@[i] == lhs@[i - rhs_aligned_end]);
                }
            }
        }
        assert(all_digits(b@)) by {
            assert forall|i: int| 0 <= i < b@.len() implies #[trigger] b@[i] < 10 by {
                if lhs_aligned_end <= i < lhs_aligned_end + rhs@.len() {
                    assert(b@[i] == rhs@[i - lhs_aligned_end]);
                }
            }
        }
    }
    (a, b, separator, fractional)
}

/// The sum of two numbers given by their digits and separators, in normal form.
#[inline(always)]
fn inner_add_digits_ref(lhs: Vec<u8>, lhs_separator: usize, rhs: &[u8], rhs_separator: usize) -> (r:
    UnsignedDCNumber)
    requires
        1 <= lhs_separator <= lhs@.len(),
        1 <= rhs_separator <= rhs@.len(),
        lhs@.len() + rhs@.len() < usize::MAX,
        all_digits(lhs@),
        all_digits(rhs@),
    ensures
        r.wf(),
        is_sum(r@, (lhs@, lhs_separator as nat), (rhs@, rhs_separator as nat)),
        r@.0.len() <= lhs@.len() + rhs@.len() + 1,
{
    let (a, b, separator, fractional) = align_operands(lhs.as_slice(), lhs_separator, rhs, rhs_separator);
    let sum = add_digit_vectors(a.as_slice(), b.as_slice());
    let (digits, sep) = normalize_digits(sum.as_slice(), separator + 1);
    proof {
        lemma_normalized_scaled(sum@, (separator + 1) as nat, digits@, sep as nat);
        assert(frac_len(sum@, (separator + 1) as nat) == fractional);
    }
    UnsignedDCNumber { digits: DigitsType::from(digits), separator: sep }
}

/// The difference of two numbers given by their digits and separators, in normal form.
#[inline(always)]
fn inner_sub_digits_ref(lhs: Vec<u8>, lhs_separator: usize, rhs: &[u8], rhs_separator: usize) -> (r:
    UnsignedDCNumber)
    requires
        1 <= lhs_separator <= lhs@.len(),
        1 <= rhs_separator <= rhs@.len(),
        lhs@.len() + rhs@.len() < usize::MAX,
        all_digits(lhs@),
        all_digits(rhs@),
        view_ge((lhs@, lhs_separator as nat), (rhs@, rhs_separator as nat)),
    ensures
        r.wf(),
        is_difference(r@, (lhs@, lhs_separator as nat), (rhs@, rhs_separator as nat)),
        r@.0.len() <= lhs@.len() + rhs@.len(),
{
    let (a, b, separator, fractional) = align_operands(lhs.as_slice(), lhs_separator, rhs, rhs_separator);
    let difference = sub_digit_vectors(a.as_slice(), b.as_slice());
    let (digits, sep) = normalize_digits(difference.as_slice(), separator);
    proof {
        lemma_normalized_scaled(difference@, separator as nat, digits@, sep as nat);
        assert(frac_len(difference@, separator as nat) == fractional);
    }
    UnsignedDCNumber { digits: DigitsType::from(digits), separator: sep }
}

/// The ASCII characters of the decimal digits `s`.
pub open spec fn ascii_of_digits(s: Seq<u8>) -> Seq<u8> {
    s.map_values(|d: u8| (d + 48) as u8)
}

/// How a number is written: its integer digits, then a dot and the fractional digits if
/// there are any.
pub open spec fn number_text(d: Seq<u8>, sep: nat) -> Seq<u8> {
    if frac_len(d, sep) == 0 {
        ascii_of_digits(int_digits(d, sep))
    } else {
        ascii_of_digits(int_digits(d, sep)) + seq![46u8] + ascii_of_digits(frac_digits(d, sep))
    }
}

/// `r` is the number that the digit character `byte` denotes in `radix`.
pub open spec fn byte_parses_to(r: Result<UnsignedDCNumber, ParseDCNumberError>, byte: u8, radix: nat) -> bool {
    if radix < 2 || radix > 16 {
        r == Err::<UnsignedDCNumber, ParseDCNumberError>(ParseDCNumberError::InvalidRadix)
    } else {
        match radix_digit(byte, radix) {
            Some(v) => r matches Ok(n) && n.wf() && view_frac(n@) == 0 && digits_value(n@.0) == v
                && n@.0.len() <= 3,
            None => r == Err::<UnsignedDCNumber, ParseDCNumberError>(ParseDCNumberError::InvalidDigit),
        }
    }
}

/// The number of decimal digits of `n`; zero has none.
#[inline]
pub fn decimal_digits(n: u64) -> (r: u32)
    ensures
        r == num_digits(n as nat),
{
    proof {
        reveal_with_fuel(pow10, 21);
        lemma_num_digits_bound(n as nat, 20);
    }
    let mut m = n;
    let mut count: u32 = 0;
    while m > 0
        invariant
            count + num_digits(m as nat) == num_digits(n as nat),
            num_digits(n as nat) <= 20,
        decreases m,
    {
        m = m / 10;
        count = count + 1;
    }
    count
}

/// The number zero.
pub fn zero_number() -> (r: UnsignedDCNumber)
    ensures
        r@ == (seq![0u8], 1nat),
        r.wf(),
        digits_value(r@.0) == 0,
{
    let v: Vec<u8> = vec![0u8];
    assert(v@ =~= seq![0u8]);
    proof {
        lemma_single_digit(0);
    }
    UnsignedDCNumber { digits: DigitsType::from(v), separator: 1 }
}

/// The decimal digits of `n` as an integer.
pub fn from_u64(n: u64) -> (r: UnsignedDCNumber)
    ensures
        r.wf(),
        r.frac() == 0,
        digits_value(r@.0) == n,
        r@.0.len() == if n == 0 {
            1
        } else {
            num_digits(n as nat)
        },
{
    let n_digits = decimal_digits(n) as usize;
    if n_digits == 0 {
        return zero_number();
    }
    let mut digits: Vec<u8> = vec![0u8; n_digits];
    let mut m = n;
    let mut i = n_digits;
    assert(digits@.subrange(n_digits as int, n_digits as int) =~= Seq::<u8>::empty());
    proof {
        lemma_pow10_zero_one(m as nat);
    }
    while i > 0
        invariant
            i <= n_digits,
            digits@.len() == n_digits,
            num_digits(m as nat) == i,
            forall|j: int| i <= j < n_digits ==> #[trigger] digits@[j] < 10,
            i == 0 ==> digits@[0] != 0,
            digits_value(digits@.subrange(i as int, n_digits as int)) + m * pow10(
                (n_digits - i) as nat,
            ) == n,
        decreases i,
    {
        let ghost old_digits = digits@;
        let d = (m % 10) as u8;
        digits.set(i - 1, d);
        proof {
            let p = pow10((n_digits - i) as nat);
            lemma_suffix_prepend(digits@, i as int, n_digits as int);
            assert(digits@.subrange(i as int, n_digits as int) =~= old_digits.subrange(
                i as int,
                n_digits as int,
            ));
            assert(pow10((n_digits - (i - 1)) as nat) == 10 * p);
            assert(m == d + 10 * (m / 10));
            assert(m * p == d * p + (m / 10) * (10 * p)) by (nonlinear_arith)
                requires
                    m == d + 10 * (m / 10),
            ;
            if i == 1 {
                assert(num_digits((m / 10) as nat) == 0);
                assert(m / 10 == 0);
            }
        }
        m = m / 10;
        i = i - 1;
    }
    proof {
        assert(digits@.subrange(0, n_digits as int) =~= digits@);
        assert(m == 0);
        assert(0 * pow10(n_digits as nat) == 0);
    }
    UnsignedDCNumber { digits: DigitsType::from(digits), separator: n_digits }
}

/// The digits with `sep` integer digits among them are in normal form.
fn in_normal_form(d: &[u8], sep: usize) -> (b: bool)
    requires
        sep <= d@.len(),
        all_digits(d@),
    ensures
        b == is_normalized(d@, sep as nat),
{
    sep >= 1 && (d[0] != 0 || sep == 1) && (d.len() <= sep || d[d.len() - 1] != 0)
}

impl UnsignedDCNumber {
    /// The number is in normal form, so that equal numbers have equal digits.
    #[verifier::type_invariant]
    pub open spec fn wf(&self) -> bool {
        is_normalized(self@.0, self@.1)
    }

    /// The number of fractional digits.
    pub open spec fn frac(&self) -> nat {
        view_frac(self@)
    }

    /// The value of the number times `10^f`.
    pub open spec fn scaled(&self, f: nat) -> nat {
        view_scaled(self@, f)
    }

    /// The value of the integer part.
    pub open spec fn int_value(&self) -> nat {
        integer_value(self@.0, self@.1)
    }

    /// A number from its digits and the number of integer digits among them, brought to
    /// normal form: digits already in normal form are kept as they are.
    pub fn new(digits: DigitsType, last_integer: usize) -> (r: Self)
        requires
            last_integer <= digits@.len(),
            all_digits(digits@),
        ensures
            r.wf(),
            view_frac(r@) <= frac_len(digits@, last_integer as nat),
            view_scaled(r@, frac_len(digits@, last_integer as nat)) == digits_value(digits@),
            is_normalized(digits@, last_integer as nat) ==> r@ == (digits@, last_integer as nat),
    {
        if in_normal_form(digits.as_slice(), last_integer) {
            proof {
                lemma_pow10_zero_one(digits_value(digits@));
            }
            return UnsignedDCNumber { digits, separator: last_integer };
        }
        let d = digits.as_slice();
        let mut v: Vec<u8> = Vec::new();
        let mut sep = last_integer;
        if last_integer == 0 {
            v.push(0u8);
            sep = 1;
        }
        let start = v.len();
        let mut i: usize = 0;
        while i < d.len()
            invariant
                start <= 1,
                v@.len() == start + i,
                i <= d@.len(),
                d@ == digits@,
                v@.subrange(0, start as int) =~= zeros(start as nat),
                v@.subrange(start as int, v@.len() as int) =~= d@.subrange(0, i as int),
            decreases d@.len() - i,
        {
            v.push(d[i]);
            i = i + 1;
        }
        proof {
            assert(d@.subrange(0, i as int) =~= digits@);
            assert forall|j: int| 0 <= j < v@.len() implies #[trigger] v@[j] == (zeros(start as nat)
                + digits@)[j] by {
                if j < start {
                    assert(v@.subrange(0, start as int)[j] == v@[j]);
                } else {
                    assert(v@.subrange(start as int, v@.len() as int)[j - start] == v@[j]);
                }
            }
            assert(v@ =~= zeros(start as nat) + digits@);
            lemma_digits_value_leading_zeros(start as nat, digits@);
            assert(all_digits(v@));
        }
        let (out, s) = normalize_digits(v.as_slice(), sep);
        UnsignedDCNumber { digits: DigitsType::from(out), separator: s }
    }

    /// An integer from its digits, brought to normal form.
    pub fn with_integer_digits(digits: DigitsType) -> (r: Self)
        requires
            all_digits(digits@),
        ensures
            r.wf(),
            view_frac(r@) == 0,
            view_scaled(r@, 0) == digits_value(digits@),
            is_normalized(digits@, digits@.len()) ==> r@ == (digits@, digits@.len()),
    {
        let size = digits.len();
        UnsignedDCNumber::new(digits, size)
    }

    /// The number of integer digits.
    #[inline]
    pub fn integer_magnitude(&self) -> (n: usize)
        ensures
            n == self@.1,
    {
        proof {
            use_type_invariant(self);
        }
        self.separator
    }

    /// The number of fractional digits.
    #[inline]
    pub fn fractional_digits(&self) -> (n: usize)
        ensures
            n == self.frac(),
    {
        proof {
            use_type_invariant(self);
        }
        self.digits.len() - self.separator
    }

    /// The integer digits and the fractional digits.
    #[inline]
    pub fn split(&self) -> (r: (&[u8], &[u8]))
        ensures
            r.0@ == self@.0.subrange(0, self@.1 as int),
            r.1@ == self@.0.subrange(self@.1 as int, self@.0.len() as int),
    {
        proof {
            use_type_invariant(self);
        }
        let im = self.integer_magnitude();
        let all = self.digits.as_slice();
        (&all[0..im], &all[im..all.len()])
    }

    /// The fractional digits.
    #[inline]
    pub fn fractional(&self) -> (r: &[u8])
        ensures
            r@ == self@.0.subrange(self@.1 as int, self@.0.len() as int),
    {
        proof {
            use_type_invariant(self);
        }
        self.split().1
    }

    /// The integer digits.
    #[inline]
    pub fn integer(&self) -> (r: &[u8])
        ensures
            r@ == self@.0.subrange(0, self@.1 as int),
    {
        proof {
            use_type_invariant(self);
        }
        self.split().0
    }

    /// The digits as an owned vector and the separator.
    fn clone_into_parts(self) -> (r: (Vec<u8>, usize))
        ensures
            r.0@ == self@.0,
            r.1 == self@.1,
    {
        proof {
            use_type_invariant(&self);
        }
        let separator = self.separator;
        (self.digits.into_vec(), separator)
    }

    /// A second number with the same digits, sharing their storage.
    pub fn dup(&self) -> (r: UnsignedDCNumber)
        ensures
            r@ == self@,
    {
        proof {
            use_type_invariant(self);
        }
        UnsignedDCNumber { digits: self.digits.clone(), separator: self.separator }
    }

    /// `self - other`; `other` may not be larger than `self`.
    fn inner_sub(self, other: UnsignedDCNumber) -> (r: Self)
        requires
            self@.0.len() + other@.0.len() < usize::MAX,
            view_ge(self@, other@),
        ensures
            r.wf(),
            is_difference(r@, self@, other@),
    {
        proof {
            use_type_invariant(&self);
            use_type_invariant(&other);
        }
        let UnsignedDCNumber { digits: self_digits, separator: self_separator } = self;
        let self_digits = self_digits.into_vec();
        inner_sub_digits_ref(self_digits, self_separator, other.digits.as_slice(), other.separator)
    }

    /// `self + other`. When `self` holds no memory of its own and is the shorter operand, the
    /// digits of `other` are reused for the result instead.
    fn inner_add(self, other: UnsignedDCNumber) -> (r: Self)
        requires
            self@.0.len() + other@.0.len() < usize::MAX,
        ensures
            r.wf(),
            is_sum(r@, self@, other@),
            r@.0.len() <= self@.0.len() + other@.0.len() + 1,
    {
        proof {
            use_type_invariant(&self);
            use_type_invariant(&other);
        }
        let UnsignedDCNumber { digits: self_digits, separator: self_separator } = self;

        if !self_digits.holds_memory() {
            if self_digits.len() < other.digits.len() {
                let UnsignedDCNumber { digits: other_digits, separator: other_separator } = other;
                let other_digits = other_digits.into_vec();
                return inner_add_digits_ref(
                    other_digits,
                    other_separator,
                    self_digits.as_slice(),
                    self_separator,
                );
            }
        }
        let self_digits = self_digits.into_vec();
        inner_add_digits_ref(self_digits, self_separator, other.digits.as_slice(), other.separator)
    }

    /// Whether the number has no fractional digits.
    pub fn is_integer(&self) -> (b: bool)
        ensures
            b == (self.frac() == 0),
    {
        proof {
            use_type_invariant(self);
        }
        self.digits.len() <= self.separator
    }

    /// Whether the number is zero.
    pub fn _is_zero(&self) -> (b: bool)
        ensures
            b == (self@.0 == seq![0u8] && self@.1 == 1),
    {
        proof {
            use_type_invariant(self);
        }
        let r = self.separator == 1 && self.digits.len() == 1 && self.digits.index(0) == 0;
        proof {
            if r {
                assert(self@.0 =~= seq![0u8]);
            }
        }
        r
    }

    /// The number written in ASCII.
    pub fn to_ascii(&self) -> (r: Vec<u8>)
        ensures
            r@ == number_text(self@.0, self@.1),
            is_ascii_bytes(r@),
    {
        proof {
            use_type_invariant(self);
        }
        let digits = self.digits.as_slice();
        let sep = self.separator;
        let mut out: Vec<u8> = Vec::new();
        let mut i: usize = 0;
        while i < sep
            invariant
                i <= sep,
                sep <= digits@.len(),
                all_digits(digits@),
                out@ =~= ascii_of_digits(digits@.subrange(0, i as int)),
            decreases sep - i,
        {
            assert(digits@[i as int] < 10);
            out.push(digits[i] + 48);
            i = i + 1;
        }
        if sep != digits.len() {
            out.push(46);
            let ghost prefix = out@;
            let mut j: usize = sep;
            while j < digits.len()
                invariant
                    sep <= j <= digits@.len(),
                    all_digits(digits@),
                    out@ =~= prefix + ascii_of_digits(digits@.subrange(sep as int, j as int)),
                decreases digits@.len() - j,
            {
                assert(digits@[j as int] < 10);
                out.push(digits[j] + 48);
                j = j + 1;
            }
        }
        proof {
            assert(is_ascii_bytes(out@)) by {
                assert forall|k: int| 0 <= k < out@.len() implies #[trigger] out@[k] < 128 by {
                    if k < sep {
                        assert(out@[k] == digits@[k] + 48);
                    } else if k > sep {
                        assert(out@[k] == digits@[k - 1] + 48);
                    }
                }
            }
        }
        out
    }

    /// The number written out, as with `Display`.
    pub fn to_string(&self) -> (r: String)
        ensures
            r@ == ascii_chars(number_text(self@.0, self@.1)),
    {
        string_from_ascii(self.to_ascii())
    }

    /// The number zero.
    pub fn zero() -> (r: Self)
        ensures
            r@ == (seq![0u8], 1nat),
    {
        zero_number()
    }

    /// The number one.
    pub fn one() -> (r: Self)
        ensures
            r@ == (seq![1u8], 1nat),
    {
        let r = from_u64(1);
        proof {
            use_type_invariant(&r);
            if r@.0.len() > 1 {
                super::digits::lemma_digits_value_leading_digit(r@.0);
                super::digits::lemma_pow10_monotonic(1, (r@.0.len() - 1) as nat);
                lemma_pow10_zero_one(0);
            }
            assert(r@.0.len() == 1);
            lemma_single_digit(r@.0[0]);
            assert(r@.0 =~= seq![r@.0[0]]);
        }
        r
    }

    /// Whether the number is zero.
    pub fn is_zero(&self) -> (b: bool)
        ensures
            b == (self@ == (seq![0u8], 1nat)),
    {
        self._is_zero()
    }

    /// Whether the number is one.
    pub fn is_one(&self) -> (b: bool)
        ensures
            b == (self@ == (seq![1u8], 1nat)),
    {
        proof {
            use_type_invariant(self);
        }
        let r = self.separator == 1 && self.digits.len() == 1 && self.digits.index(0) == 1;
        proof {
            if r {
                assert(self@.0 =~= seq![1u8]);
            }
        }
        r
    }

    /// The number that the character `byte` denotes as a decimal digit.
    pub fn from_byte(byte: u8) -> (r: Result<Self, ParseDCNumberError>)
        ensures
            byte_parses_to(r, byte, 10),
    {
        UnsignedDCNumber::from_byte_radix(byte, 10)
    }

    /// The number that the character `byte` denotes as a digit in `radix`.
    pub fn from_byte_radix(byte: u8, radix: u32) -> (r: Result<Self, ParseDCNumberError>)
        ensures
            byte_parses_to(r, byte, radix as nat),
    {
        if radix > 16 {
            return Err(ParseDCNumberError::InvalidRadix);
        }
        UnsignedDCNumber::from_byte_radix_u8(byte, radix as u8)
    }

    /// The number that the character `byte` denotes as a digit in `radix`.
    pub fn from_byte_radix_u8(byte: u8, radix: u8) -> (r: Result<Self, ParseDCNumberError>)
        ensures
            byte_parses_to(r, byte, radix as nat),
    {
        if radix < 2 || radix > 16 {
            return Err(ParseDCNumberError::InvalidRadix);
        }
        proof {
            reveal_with_fuel(pow10, 4);
        }
        if 48 <= byte && byte <= 57 && byte - 48 < radix {
            proof {
                lemma_num_digits_bound((byte - 48) as nat, 3);
            }
            Ok(from_u64((byte - 48) as u64))
        } else if 65 <= byte && byte <= 70 && byte - 55 < radix {
            proof {
                lemma_num_digits_bound((byte - 55) as nat, 3);
            }
            Ok(from_u64((byte - 55) as u64))
        } else {
            Err(ParseDCNumberError::InvalidDigit)
        }
    }

    /// Compares two numbers; on numbers in normal form this is the order of their values.
    pub fn cmp_unsigned(&self, other: &UnsignedDCNumber) -> (r: Ordering)
        ensures
            r == number_cmp(self@.0, self@.1, other@.0, other@.1),
    {
        proof {
            use_type_invariant(self);
            use_type_invariant(other);
        }
        let self_integer = self.integer_magnitude();
        let other_integer = other.integer_magnitude();
        if self_integer < other_integer {
            Ordering::Less
        } else if self_integer > other_integer {
            Ordering::Greater
        } else {
            let (self_int, self_frac) = self.split();
            let (other_int, other_frac) = other.split();
            match cmp_digit_slices(self_int, other_int) {
                Ordering::Less => Ordering::Less,
                Ordering::Greater => Ordering::Greater,
                Ordering::Equal => cmp_digit_slices(self_frac, other_frac),
            }
        }
    }

    /// The number times ten.
    pub fn mul_10(self) -> (r: Self)
        requires
            self@.0.len() < usize::MAX,
        ensures
            r.wf(),
            is_product(r@, self@, 10),
            r@.0.len() <= self@.0.len() + 1,
    {
        proof {
            use_type_invariant(&self);
        }
        if self._is_zero() {
            proof {
                lemma_single_digit(0);
                lemma_pow10_zero_one(0);
            }
            return self;
        }
        let ghost d = self@.0;
        let ghost s = self@.1;
        proof {
            lemma_pow10_zero_one(digits_value(d));
        }
        let (mut v, mut separator) = self.clone_into_parts();
        if separator >= v.len() {
            // an integer: 1 => 10
            v.push(0);
            separator = separator + 1;
            proof {
                lemma_digits_value_push(d, 0);
                assert(v@.last() == 0);
                if d[0] == 0 {
                    assert(d =~= seq![0u8]);
                }
                assert(all_digits(v@)) by {
                    assert forall|i: int| 0 <= i < v@.len() implies #[trigger] v@[i] < 10 by {
                        if i < d.len() {
                            assert(v@[i] == d[i]);
                        }
                    }
                }
                lemma_pow10_zero_one(digits_value(v@));
            }
        } else {
            // a fraction: 0.12 => 1.2, 0.01 => 0.1, 0.1 => 1, 1.1 => 11
            if v[0] == 0 {
                let _ = v.remove(0);
                proof {
                    assert(d =~= zeros(1) + v@);
                    lemma_digits_value_leading_zeros(1, v@);
                    assert(v@.last() == d.last());
                    assert(all_digits(v@)) by {
                        assert forall|i: int| 0 <= i < v@.len() implies #[trigger] v@[i] < 10 by {
                            assert(v@[i] == d[i + 1]);
                        }
                    }
                    assert((frac_len(d, s) - frac_len(v@, 1)) as nat == 1);
                    lemma_pow10_zero_one(digits_value(v@));
                }
            } else {
                separator = separator + 1;
                proof {
                    assert((frac_len(d, s) - frac_len(d, s + 1)) as nat == 1);
                }
            }
        }
        UnsignedDCNumber { digits: DigitsType::from(v), separator }
    }

    /// The number times a small factor.
    pub fn mul_u8(self, other: u8) -> (r: Self)
        requires
            self@.0.len() + 3 <= usize::MAX,
        ensures
            r.wf(),
            is_product(r@, self@, other as nat),
            r@.0.len() <= self@.0.len() + 3,
            other == 0 ==> r@ == (seq![0u8], 1nat),
            other == 1 ==> r@ == self@,
    {
        proof {
            use_type_invariant(&self);
        }
        if other == 0 {
            let z = zero_number();
            proof {
                assert(0 * pow10(self.frac()) == 0);
                assert(digits_value(self@.0) * 0 == 0);
                assert(((self.frac() - view_frac(z@)) as nat) == self.frac());
            }
            return z;
        }
        if other == 1 {
            return self;
        }
        if other == 10 {
            return self.mul_10();
        }
        let (v, separator) = self.clone_into_parts();
        let product = mul_digit_vector(v.as_slice(), other);
        let (digits, sep) = normalize_digits(product.as_slice(), separator + 3);
        UnsignedDCNumber { digits: DigitsType::from(digits), separator: sep }
    }

    /// The integer part as a machine integer; the integer part must fit.
    fn blind_to_u64(&self) -> (r: u64)
        requires
            self.int_value() <= u64::MAX,
        ensures
            r == self.int_value(),
    {
        proof {
            use_type_invariant(self);
        }
        let integer = self.integer();
        let mut acc: u64 = 0;
        let mut i: usize = 0;
        while i < integer.len()
            invariant
                i <= integer@.len(),
                integer@ == int_digits(self@.0, self@.1),
                all_digits(integer@),
                digits_value(integer@) <= u64::MAX,
                acc == digits_value(integer@.subrange(0, i as int)),
            decreases integer@.len() - i,
        {
            proof {
                let prefix = integer@.subrange(0, i + 1);
                let rest = integer@.subrange(i + 1, integer@.len() as int);
                assert(integer@ =~= prefix + rest);
                lemma_digits_value_concat(prefix, rest);
                lemma_pow10_positive_le(digits_value(prefix), rest.len());
                assert(prefix.drop_last() =~= integer@.subrange(0, i as int));
                assert(integer@[i as int] < 10);
            }
            acc = acc * 10 + integer[i] as u64;
            i = i + 1;
        }
        proof {
            assert(integer@.subrange(0, integer@.len() as int) =~= integer@);
        }
        acc
    }

    /// The integer part as a signed machine integer; the integer part must fit.
    fn blind_to_i64(&self) -> (r: i64)
        requires
            self.int_value() <= i64::MAX,
        ensures
            r == self.int_value(),
    {
        proof {
            use_type_invariant(self);
        }
        self.blind_to_u64() as i64
    }

    /// The number as a `u64`, when it is an integer that fits.
    pub fn to_u64(&self) -> (r: Option<u64>)
        ensures
            r is Some <==> (self.frac() == 0 && self.int_value() <= u64::MAX),
            r matches Some(v) ==> v == self.int_value(),
    {
        proof {
            use_type_invariant(self);
        }
        if !self.is_integer() {
            return None;
        }
        let max = max_u64_number();
        if let Ordering::Greater = self.cmp_unsigned(&max) {
            proof {
                lemma_integer_order(self@, max@);
            }
            return None;
        }
        proof {
            lemma_integer_order(self@, max@);
        }
        Some(self.blind_to_u64())
    }

    /// The number as an `i64`, when it is an integer that fits.
    pub fn to_i64(&self) -> (r: Option<i64>)
        ensures
            r is Some <==> (self.frac() == 0 && self.int_value() <= i64::MAX),
            r matches Some(v) ==> v == self.int_value(),
    {
        proof {
            use_type_invariant(self);
        }
        if !self.is_integer() {
            return None;
        }
        let max = max_i64_number();
        if let Ordering::Greater = self.cmp_unsigned(&max) {
            proof {
                lemma_integer_order(self@, max@);
            }
            return None;
        }
        proof {
            lemma_integer_order(self@, max@);
        }
        Some(self.blind_to_i64())
    }
}

impl Default for UnsignedDCNumber {
    fn default() -> (r: Self)
        ensures
            r@ == (seq![0u8], 1nat),
    {
        zero_number()
    }
}

impl PartialEq for UnsignedDCNumber {
    fn eq(&self, other: &Self) -> (r: bool) {
        proof {
            use_type_invariant(self);
            use_type_invariant(other);
            lemma_number_cmp_equal(self@.0, self@.1, other@.0, other@.1);
        }
        match self.cmp_unsigned(other) {
            Ordering::Equal => true,
            _ => false,
        }
    }
}

impl PartialEqSpecImpl for UnsignedDCNumber {
    open spec fn obeys_eq_spec() -> bool {
        true
    }

    open spec fn eq_spec(&self, other: &Self) -> bool {
        self@ == other@
    }
}

impl Eq for UnsignedDCNumber {

}

impl PartialOrd for UnsignedDCNumber {
    fn partial_cmp(&self, other: &Self) -> (r: Option<Ordering>) {
        proof {
            use_type_invariant(self);
            use_type_invariant(other);
        }
        Some(self.cmp_unsigned(other))
    }
}

impl PartialOrdSpecImpl for UnsignedDCNumber {
    open spec fn obeys_partial_cmp_spec() -> bool {
        true
    }

    open spec fn partial_cmp_spec(&self, other: &Self) -> Option<Ordering> {
        Some(number_cmp(self@.0, self@.1, other@.0, other@.1))
    }
}

impl std::ops::Add<UnsignedDCNumber> for UnsignedDCNumber {
    type Output = UnsignedDCNumber;

    fn add(self, other: UnsignedDCNumber) -> (r: Self)
        ensures
            r.wf(),
            is_sum(r@, self@, other@),
            r@.0.len() <= self@.0.len() + other@.0.len() + 1,
    {
        self.inner_add(other)
    }
}

impl AddSpecImpl<UnsignedDCNumber> for UnsignedDCNumber {
    open spec fn obeys_add_spec() -> bool {
        false
    }

    open spec fn add_req(self, other: UnsignedDCNumber) -> bool {
        self@.0.len() + other@.0.len() < usize::MAX
    }

    open spec fn add_spec(self, other: UnsignedDCNumber) -> UnsignedDCNumber {
        arbitrary()
    }
}

impl std::ops::Sub<UnsignedDCNumber> for UnsignedDCNumber {
    type Output = UnsignedDCNumber;

    fn sub(self, other: UnsignedDCNumber) -> (r: Self)
        ensures
            r.wf(),
            is_difference(r@, self@, other@),
    {
        self.inner_sub(other)
    }
}

impl SubSpecImpl<UnsignedDCNumber> for UnsignedDCNumber {
    open spec fn obeys_sub_spec() -> bool {
        false
    }

    open spec fn sub_req(self, other: UnsignedDCNumber) -> bool {
        &&& self@.0.len() + other@.0.len() < usize::MAX
        &&& view_ge(self@, other@)
    }

    open spec fn sub_spec(self, other: UnsignedDCNumber) -> UnsignedDCNumber {
        arbitrary()
    }
}

impl std::ops::Mul<u8> for UnsignedDCNumber {
    type Output = UnsignedDCNumber;

    fn mul(self, other: u8) -> (r: Self)
        ensures
            r.wf(),
            is_product(r@, self@, other as nat),
            r@.0.len() <= self@.0.len() + 3,
            other == 0 ==> r@ == (seq![0u8], 1nat),
            other == 1 ==> r@ == self@,
    {
        self.mul_u8(other)
    }
}

impl MulSpecImpl<u8> for UnsignedDCNumber {
    open spec fn obeys_mul_spec() -> bool {
        false
    }

    open spec fn mul_req(self, other: u8) -> bool {
        self@.0.len() + 3 <= usize::MAX
    }

    open spec fn mul_spec(self, other: u8) -> UnsignedDCNumber {
        arbitrary()
    }
}

impl std::ops::Add<u8> for UnsignedDCNumber {
    type Output = UnsignedDCNumber;

    fn add(self, other: u8) -> (r: Self)
        ensures
            r.wf(),
            view_frac(r@) <= view_frac(self@),
            view_scaled(r@, view_frac(self@)) == view_scaled(self@, view_frac(self@)) + other
                * pow10(view_frac(self@)),
    {
        let n = from_u64(other as u64);
        proof {
            reveal_with_fuel(pow10, 4);
            lemma_num_digits_bound(other as nat, 3);
            use_type_invariant(&n);
            lemma_pow10_zero_one(digits_value(n@.0));
        }
        self.inner_add(n)
    }
}

impl AddSpecImpl<u8> for UnsignedDCNumber {
    open spec fn obeys_add_spec() -> bool {
        false
    }

    open spec fn add_req(self, other: u8) -> bool {
        self@.0.len() + 3 < usize::MAX
    }

    open spec fn add_spec(self, other: u8) -> UnsignedDCNumber {
        arbitrary()
    }
}

impl From<u64> for UnsignedDCNumber {
    fn from(n: u64) -> (r: Self)
        ensures
            r.wf(),
            r.frac() == 0,
            digits_value(r@.0) == n,
    {
        from_u64(n)
    }
}

impl FromSpecImpl<u64> for UnsignedDCNumber {
    open spec fn obeys_from_spec() -> bool {
        false
    }

    open spec fn from_spec(n: u64) -> UnsignedDCNumber {
        arbitrary()
    }
}

impl From<u32> for UnsignedDCNumber {
    fn from(n: u32) -> (r: Self)
        ensures
            r.wf(),
            r.frac() == 0,
            digits_value(r@.0) == n,
    {
        from_u64(n as u64)
    }
}

impl FromSpecImpl<u32> for UnsignedDCNumber {
    open spec fn obeys_from_spec() -> bool {
        false
    }

    open spec fn from_spec(n: u32) -> UnsignedDCNumber {
        arbitrary()
    }
}

impl From<u16> for UnsignedDCNumber {
    fn from(n: u16) -> (r: Self)
        ensures
            r.wf(),
            r.frac() == 0,
            digits_value(r@.0) == n,
    {
        from_u64(n as u64)
    }
}

impl FromSpecImpl<u16> for UnsignedDCNumber {
    open spec fn obeys_from_spec() -> bool {
        false
    }

    open spec fn from_spec(n: u16) -> UnsignedDCNumber {
        arbitrary()
    }
}

impl From<u8> for UnsignedDCNumber {
    fn from(n: u8) -> (r: Self)
        ensures
            r.wf(),
            r.frac() == 0,
            digits_value(r@.0) == n,
    {
        from_u64(n as u64)
    }
}

impl FromSpecImpl<u8> for UnsignedDCNumber {
    open spec fn obeys_from_spec() -> bool {
        false
    }

    open spec fn from_spec(n: u8) -> UnsignedDCNumber {
        arbitrary()
    }
}

/// A value is at most its value followed by more digits.
proof fn lemma_pow10_positive_le(x: nat, k: nat)
    ensures
        x <= x * pow10(k),
{
    super::digits::lemma_pow10_positive(k);
    assert(x <= x * pow10(k)) by (nonlinear_arith)
        requires
            pow10(k) >= 1,
    ;
}

/// The largest `u64` as a number.
fn max_u64_number() -> (r: UnsignedDCNumber)
    ensures
        r.wf(),
        r.frac() == 0,
        digits_value(r@.0) == u64::MAX,
{
    from_u64(u64::MAX)
}

/// The largest `i64` as a number.
fn max_i64_number() -> (r: UnsignedDCNumber)
    ensures
        r.wf(),
        r.frac() == 0,
        digits_value(r@.0) == i64::MAX,
{
    from_u64(i64::MAX as u64)
}

/// For integers in normal form, the digit order is the order of their values.
proof fn lemma_integer_order(x: (Seq<u8>, nat), y: (Seq<u8>, nat))
    requires
        is_normalized(x.0, x.1),
        is_normalized(y.0, y.1),
        view_frac(x) == 0,
        view_frac(y) == 0,
    ensures
        (number_cmp(x.0, x.1, y.0, y.1) == Ordering::Greater) <==> (integer_value(x.0, x.1)
            > integer_value(y.0, y.1)),
        integer_value(x.0, x.1) == digits_value(x.0),
        integer_value(y.0, y.1) == digits_value(y.0),
{
    super::order::lemma_number_cmp_is_value_order(x.0, x.1, y.0, y.1, 0);
    assert(int_digits(x.0, x.1) =~= x.0);
    assert(int_digits(y.0, y.1) =~= y.0);
    lemma_pow10_zero_one(digits_value(x.0));
    lemma_pow10_zero_one(digits_value(y.0));
    assert(scaled_value(x.0, x.1, 0) == digits_value(x.0));
    assert(scaled_value(y.0, y.1, 0) == digits_value(y.0));
}

} // verus!
