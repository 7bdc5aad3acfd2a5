//! Decimal numbers of arbitrary size: an integer mantissa and a power of ten that divides it.
//!
//! The arithmetic is done by the `bigdecimal` crate; a `Decimal` carries a value between those
//! calls as the canonical text of its mantissa and its scale.
use vstd::prelude::*;
use bigdecimal::BigDecimal;
use num_bigint::BigInt;
use num_traits::ToPrimitive;
use crate::dcnumber::digits::pow10;
use crate::numtext::{
    all_ascii_digits,
    ascii_value,
    find_byte,
    int_text,
    int_value,
    lemma_int_text_value,
    nat_text,
    u64_text,
};

verus! {

/// The value `mantissa * 10^(-scale)`, with the scale it is written at.
pub struct DecimalValue {
    pub mantissa: int,
    pub scale: int,
}

/// A decimal number: the canonical decimal text of its mantissa, and its scale.
#[derive(Debug)]
pub struct Decimal {
    mantissa: Vec<u8>,
    scale: i64,
}

impl View for Decimal {
    type V = DecimalValue;

    closed spec fn view(&self) -> DecimalValue {
        DecimalValue { mantissa: int_value(self.mantissa@), scale: self.scale as int }
    }
}

/// The absolute value.
pub open spec fn abs(i: int) -> nat {
    if i < 0 {
        (-i) as nat
    } else {
        i as nat
    }
}

/// The larger of the two scales.
pub open spec fn max_scale(a: DecimalValue, b: DecimalValue) -> int {
    if a.scale >= b.scale {
        a.scale
    } else {
        b.scale
    }
}

/// The mantissa of `v` written at the larger scale `scale`.
pub open spec fn aligned_mantissa(v: DecimalValue, scale: int) -> int {
    v.mantissa * pow10((scale - v.scale) as nat)
}

/// The sum as `bigdecimal` forms it: an operand that is zero leaves the other as it is;
/// otherwise both are written at the larger scale and added.
pub open spec fn decimal_sum(a: DecimalValue, b: DecimalValue) -> DecimalValue {
    if b.mantissa == 0 {
        a
    } else if a.mantissa == 0 {
        b
    } else {
        let s = max_scale(a, b);
        DecimalValue { mantissa: aligned_mantissa(a, s) + aligned_mantissa(b, s), scale: s }
    }
}

/// The difference as `bigdecimal` forms it.
pub open spec fn decimal_difference(a: DecimalValue, b: DecimalValue) -> DecimalValue {
    if b.mantissa == 0 {
        a
    } else if a.mantissa == 0 {
        DecimalValue { mantissa: -b.mantissa, scale: b.scale }
    } else {
        let s = max_scale(a, b);
        DecimalValue { mantissa: aligned_mantissa(a, s) - aligned_mantissa(b, s), scale: s }
    }
}

/// The value is exactly one.
pub open spec fn is_one(v: DecimalValue) -> bool {
    v.scale >= 0 && v.mantissa == pow10(v.scale as nat)
}

/// The product of the mantissas, at the sum of the scales.
pub open spec fn decimal_product(a: DecimalValue, b: DecimalValue) -> DecimalValue {
    DecimalValue { mantissa: a.mantissa * b.mantissa, scale: a.scale + b.scale }
}

/// The remainder of a division that truncates toward zero: it has the sign of `x`.
pub open spec fn truncated_remainder(x: int, y: int) -> int {
    if x >= 0 {
        x % (abs(y) as int)
    } else {
        -((-x) % (abs(y) as int))
    }
}

/// The quotient of a division by a positive number that truncates toward zero.
pub open spec fn truncated_quotient(x: int, y: nat) -> int {
    if x >= 0 {
        x / (y as int)
    } else {
        -((-x) / (y as int))
    }
}

/// The remainder of the mantissas written at the larger scale, at that scale.
pub open spec fn decimal_remainder(a: DecimalValue, b: DecimalValue) -> DecimalValue {
    let s = max_scale(a, b);
    DecimalValue {
        mantissa: truncated_remainder(aligned_mantissa(a, s), aligned_mantissa(b, s)),
        scale: s,
    }
}

/// `a` written at the scale `k`: digits are added, or dropped toward zero.
pub open spec fn rescaled(a: DecimalValue, k: int) -> DecimalValue {
    if a.mantissa == 0 {
        DecimalValue { mantissa: 0, scale: k }
    } else if k > a.scale {
        DecimalValue { mantissa: a.mantissa * pow10((k - a.scale) as nat), scale: k }
    } else if k < a.scale {
        DecimalValue { mantissa: truncated_quotient(a.mantissa, pow10((a.scale - k) as nat)), scale: k }
    } else {
        a
    }
}

/// The integer part of a value that is not negative, when it fits in a `u64`.
pub open spec fn u64_part(a: DecimalValue) -> Option<u64> {
    if a.mantissa < 0 {
        None
    } else {
        let t = if a.scale >= 0 {
            a.mantissa / (pow10(a.scale as nat) as int)
        } else {
            a.mantissa * pow10((-a.scale) as nat)
        };
        if t <= u64::MAX {
            Some(t as u64)
        } else {
            None
        }
    }
}

/// `bigdecimal` can divide `a` by `b` without its scale leaving an `i64`: a zero dividend is
/// given back as it is; otherwise it starts from the difference of the scales and adds one for
/// each digit it shifts in, which are at most the digits of the divisor's mantissa and the
/// hundred digits of its default precision.
pub open spec fn quotient_scale_fits(a: DecimalValue, b: DecimalValue) -> bool {
    ||| a.mantissa == 0
    ||| i64::MIN <= a.scale - b.scale && a.scale - b.scale + int_text(b.mantissa).len() + 100
        <= i64::MAX
}

/// `bigdecimal` can take the remainder of `a` by `b`: it computes the difference of the scales
/// in an `i64`.
pub open spec fn remainder_scale_fits(a: DecimalValue, b: DecimalValue) -> bool {
    i64::MIN <= b.scale - a.scale <= i64::MAX
}

/// What `bigdecimal` computes for `a * b`.
pub uninterp spec fn decimal_multiplied(a: DecimalValue, b: DecimalValue) -> DecimalValue;

/// What `bigdecimal` computes for `dividend / divisor`.
pub uninterp spec fn decimal_quotient(dividend: DecimalValue, divisor: DecimalValue) -> DecimalValue;

/// `n` ASCII zeros.
pub open spec fn ascii_zeros(n: nat) -> Seq<u8> {
    Seq::new(n, |i: int| 48u8)
}

/// The value written out in full: every digit of the mantissa, a dot before the last `scale`
/// of them, zeros where the scale asks for more digits than there are, and a minus sign.
pub open spec fn plain_text(v: DecimalValue) -> Seq<u8> {
    let digits = nat_text(abs(v.mantissa));
    let body = if v.scale <= 0 {
        digits + ascii_zeros((-v.scale) as nat)
    } else if v.scale < digits.len() {
        let cut = digits.len() - v.scale;
        digits.subrange(0, cut) + seq![46u8] + digits.subrange(cut, digits.len() as int)
    } else {
        seq![48u8, 46u8] + ascii_zeros((v.scale - digits.len()) as nat) + digits
    };
    if v.mantissa < 0 {
        seq![45u8] + body
    } else {
        body
    }
}

/// The character of a digit in a radix up to 36: `0` to `9`, then `a` to `z`.
pub open spec fn radix_char(d: nat) -> u8 {
    if d < 10 {
        (48 + d) as u8
    } else {
        (87 + d) as u8
    }
}

/// The canonical text of `n` in the radix `r`.
pub open spec fn nat_radix_text(n: nat, r: nat) -> Seq<u8>
    decreases n,
{
    if r < 2 {
        Seq::empty()
    } else if n < r {
        seq![radix_char(n)]
    } else {
        proof {
            assert(n / r < n) by (nonlinear_arith)
                requires
                    n >= r,
                    r >= 2,
            ;
        }
        nat_radix_text(n / r, r).push(radix_char(n % r))
    }
}

/// The canonical text of `i` in the radix `r`, with a minus sign when it is negative.
pub open spec fn int_radix_text(i: int, r: nat) -> Seq<u8> {
    if i < 0 {
        seq![45u8] + nat_radix_text(abs(i), r)
    } else {
        nat_radix_text(abs(i), r)
    }
}

/// `t` is digits, or digits, a dot and digits, or a dot and digits.
pub open spec fn unsigned_literal(t: Seq<u8>) -> bool {
    let d = find_byte(t, 0, 46);
    &&& t.len() > 0
    &&& all_ascii_digits(t.subrange(0, d as int))
    &&& d < t.len() ==> d + 1 < t.len() && all_ascii_digits(t.subrange(d + 1 as int, t.len() as int))
}

/// The digits of an unsigned literal without its dot.
pub open spec fn literal_digits(t: Seq<u8>) -> Seq<u8> {
    let d = find_byte(t, 0, 46);
    if d < t.len() {
        t.subrange(0, d as int) + t.subrange(d as int + 1, t.len() as int)
    } else {
        t
    }
}

/// The number of digits after the dot of an unsigned literal.
pub open spec fn literal_scale(t: Seq<u8>) -> nat {
    let d = find_byte(t, 0, 46);
    if d < t.len() {
        (t.len() - d - 1) as nat
    } else {
        0
    }
}

/// `t` is an unsigned literal, with a minus sign or without.
pub open spec fn decimal_literal(t: Seq<u8>) -> bool {
    if t.len() > 0 && t[0] == 45 {
        unsigned_literal(t.drop_first())
    } else {
        unsigned_literal(t)
    }
}

/// The value of a decimal literal, at the scale it is written with.
pub open spec fn literal_value(t: Seq<u8>) -> DecimalValue {
    if t.len() > 0 && t[0] == 45 {
        DecimalValue {
            mantissa: -(ascii_value(literal_digits(t.drop_first())) as int),
            scale: literal_scale(t.drop_first()) as int,
        }
    } else {
        DecimalValue { mantissa: ascii_value(literal_digits(t)) as int, scale: literal_scale(t) as int }
    }
}

/// The value of a number that may be missing.
pub open spec fn option_value(r: Option<Decimal>) -> Option<DecimalValue> {
    match r {
        Some(d) => Some(d@),
        None => None,
    }
}

/// What `BigDecimal::parse_bytes` reads from `text` in `radix`.
pub uninterp spec fn parsed_decimal(text: Seq<u8>, radix: u32) -> Option<DecimalValue>;

/// `BigDecimal::parse_bytes`: only radix ten is read, and a decimal literal is read as its
/// value, at the scale it is written with; what it makes of other text (exponents, for
/// instance) is named, not stated.
#[verifier::external_body]
fn parse_decimal_bytes(text: &[u8], radix: u32) -> (r: Option<Decimal>)
    ensures
        option_value(r) == parsed_decimal(text@, radix),
        radix != 10 ==> r is None,
        radix == 10 && decimal_literal(text@) && text@.len() < i64::MAX ==> option_value(r) == Some(
            literal_value(text@),
        ),
{
    match BigDecimal::parse_bytes(text, radix) {
        Some(x) => {
            let (m, s) = x.into_bigint_and_exponent();
            Some(Decimal { mantissa: m.to_str_radix(10).into_bytes(), scale: s })
        },
        None => None,
    }
}

/// `BigDecimal::add_assign`.
#[verifier::external_body]
pub(crate) fn add_decimals(a: &Decimal, b: &Decimal) -> (r: Decimal)
    ensures
        r@ == decimal_sum(a@, b@),
{
    let mut x = BigDecimal::new(BigInt::parse_bytes(&a.mantissa, 10).unwrap(), a.scale);
    x += BigDecimal::new(BigInt::parse_bytes(&b.mantissa, 10).unwrap(), b.scale);
    let (m, s) = x.into_bigint_and_exponent();
    Decimal { mantissa: m.to_str_radix(10).into_bytes(), scale: s }
}

/// `BigDecimal::sub_assign`.
#[verifier::external_body]
pub(crate) fn subtract_decimals(a: &Decimal, b: &Decimal) -> (r: Decimal)
    ensures
        r@ == decimal_difference(a@, b@),
{
    let mut x = BigDecimal::new(BigInt::parse_bytes(&a.mantissa, 10).unwrap(), a.scale);
    x -= BigDecimal::new(BigInt::parse_bytes(&b.mantissa, 10).unwrap(), b.scale);
    let (m, s) = x.into_bigint_and_exponent();
    Decimal { mantissa: m.to_str_radix(10).into_bytes(), scale: s }
}

/// `BigDecimal::mul_assign`: the product of the mantissas at the sum of the scales, except
/// that when an operand is one the other may be kept as it is (which one `bigdecimal` keeps
/// depends on a quick check of the operands, so that choice is named, not stated).
#[verifier::external_body]
pub(crate) fn multiply_decimals(a: &Decimal, b: &Decimal) -> (r: Decimal)
    requires
        i64::MIN <= a@.scale + b@.scale <= i64::MAX,
    ensures
        r@ == decimal_multiplied(a@, b@),
        r@ == decimal_product(a@, b@) || (is_one(a@) && r@ == b@) || (is_one(b@) && r@ == a@),
{
    let mut x = BigDecimal::new(BigInt::parse_bytes(&a.mantissa, 10).unwrap(), a.scale);
    x *= BigDecimal::new(BigInt::parse_bytes(&b.mantissa, 10).unwrap(), b.scale);
    let (m, s) = x.into_bigint_and_exponent();
    Decimal { mantissa: m.to_str_radix(10).into_bytes(), scale: s }
}

/// `&BigDecimal / BigDecimal`: the quotient that `bigdecimal` computes (with its default
/// precision of a hundred digits); dividing by zero panics there, and so does a scale that
/// leaves an `i64`, so both are left out.
#[verifier::external_body]
pub(crate) fn divide_decimals(a: &Decimal, b: &Decimal) -> (r: Decimal)
    requires
        b@.mantissa != 0,
        quotient_scale_fits(a@, b@),
    ensures
        r@ == decimal_quotient(a@, b@),
{
    let x = BigDecimal::new(BigInt::parse_bytes(&a.mantissa, 10).unwrap(), a.scale);
    let y = &x / BigDecimal::new(BigInt::parse_bytes(&b.mantissa, 10).unwrap(), b.scale);
    let (m, s) = y.into_bigint_and_exponent();
    Decimal { mantissa: m.to_str_radix(10).into_bytes(), scale: s }
}

/// `&BigDecimal % BigDecimal`: both mantissas at the larger scale, and the remainder of a
/// division toward zero; a zero divisor panics there, and so does a difference of the scales
/// that leaves an `i64`, so both are left out.
#[verifier::external_body]
pub(crate) fn remainder_decimals(a: &Decimal, b: &Decimal) -> (r: Decimal)
    requires
        b@.mantissa != 0,
        remainder_scale_fits(a@, b@),
    ensures
        r@ == decimal_remainder(a@, b@),
{
    let x = BigDecimal::new(BigInt::parse_bytes(&a.mantissa, 10).unwrap(), a.scale);
    let y = &x % BigDecimal::new(BigInt::parse_bytes(&b.mantissa, 10).unwrap(), b.scale);
    let (m, s) = y.into_bigint_and_exponent();
    Decimal { mantissa: m.to_str_radix(10).into_bytes(), scale: s }
}

/// `BigDecimal::with_scale`; the difference of the scales is computed in an `i64`, so one
/// that does not fit there is left out.
#[verifier::external_body]
pub(crate) fn rescale_decimal(a: &Decimal, k: i64) -> (r: Decimal)
    requires
        i64::MIN <= k - a@.scale <= i64::MAX,
    ensures
        r@ == rescaled(a@, k as int),
{
    let x = BigDecimal::new(BigInt::parse_bytes(&a.mantissa, 10).unwrap(), a.scale);
    let (m, s) = x.with_scale(k).into_bigint_and_exponent();
    Decimal { mantissa: m.to_str_radix(10).into_bytes(), scale: s }
}

/// `ToPrimitive::to_u64` on a `BigDecimal`: the integer part of a value that is not negative,
/// when it fits; it rescales to zero first, so the smallest scale is left out.
#[verifier::external_body]
pub(crate) fn decimal_to_u64(a: &Decimal) -> (r: Option<u64>)
    requires
        a@.scale > i64::MIN,
    ensures
        r == u64_part(a@),
{
    BigDecimal::new(BigInt::parse_bytes(&a.mantissa, 10).unwrap(), a.scale).to_u64()
}

/// `ToPrimitive::to_u32` on the mantissa as a `BigInt`.
#[verifier::external_body]
pub(crate) fn mantissa_to_u32(a: &Decimal) -> (r: Option<u32>)
    ensures
        r == (if 0 <= a@.mantissa <= u32::MAX {
            Some(a@.mantissa as u32)
        } else {
            None
        }),
{
    BigInt::parse_bytes(&a.mantissa, 10).unwrap().to_u32()
}

/// `BigDecimal::to_plain_string`.
#[verifier::external_body]
pub(crate) fn decimal_plain_text(a: &Decimal) -> (r: Vec<u8>)
    ensures
        r@ == plain_text(a@),
{
    let x = BigDecimal::new(BigInt::parse_bytes(&a.mantissa, 10).unwrap(), a.scale);
    x.to_plain_string().into_bytes()
}

/// `BigInt::to_str_radix` on the mantissa: lower case digits, and a minus sign.
#[verifier::external_body]
pub(crate) fn mantissa_radix_text(a: &Decimal, radix: u32) -> (r: Vec<u8>)
    requires
        2 <= radix <= 36,
    ensures
        r@ == int_radix_text(a@.mantissa, radix as nat),
{
    BigInt::parse_bytes(&a.mantissa, 10).unwrap().to_str_radix(radix).into_bytes()
}

impl Decimal {
    #[verifier::type_invariant]
    closed spec fn well_formed(&self) -> bool {
        self.mantissa@ == int_text(int_value(self.mantissa@))
    }

    /// The scale.
    pub fn scale(&self) -> (s: i64)
        ensures
            s == self@.scale,
    {
        self.scale
    }

    /// The canonical text of the mantissa.
    pub fn mantissa_text(&self) -> (t: &[u8])
        ensures
            t@ == int_text(self@.mantissa),
    {
        proof {
            use_type_invariant(self);
        }
        self.mantissa.as_slice()
    }

    /// The number `n`, at scale zero.
    pub fn from_u64(n: u64) -> (r: Decimal)
        ensures
            r@ == (DecimalValue { mantissa: n as int, scale: 0 }),
    {
        let mantissa = u64_text(n);
        proof {
            lemma_int_text_value(n as int);
        }
        Decimal { mantissa, scale: 0 }
    }

    /// The value that a decimal literal denotes, at the scale it is written with: digits,
    /// optionally with a dot between or before them, and optionally a leading minus sign.
    pub fn from_literal(text: &[u8]) -> (r: Option<Decimal>)
        ensures
            r is Some <==> decimal_literal(text@) && text@.len() < i64::MAX,
            r matches Some(d) ==> d@ == literal_value(text@),
    {
        if text.len() as u64 >= 9223372036854775807u64 {
            return None;
        }
        if !is_decimal_literal(text) {
            return None;
        }
        parse_decimal_bytes(text, 10)
    }

    /// What `bigdecimal` reads from `text` in `radix`: radix ten only.
    pub fn parse_bytes(text: &[u8], radix: u32) -> (r: Option<Decimal>)
        ensures
            option_value(r) == parsed_decimal(text@, radix),
            radix != 10 ==> r is None,
            radix == 10 && decimal_literal(text@) && text@.len() < i64::MAX ==> option_value(r)
                == Some(literal_value(text@)),
    {
        parse_decimal_bytes(text, radix)
    }

    /// The value is zero.
    pub fn is_zero(&self) -> (b: bool)
        ensures
            b == (self@.mantissa == 0),
    {
        proof {
            use_type_invariant(self);
            lemma_int_text_value(self@.mantissa);
            lemma_int_text_value(0);
        }
        let t = self.mantissa.as_slice();
        let zero = t.len() == 1 && t[0] == 48u8;
        proof {
            if zero {
                assert(self.mantissa@ =~= int_text(0));
            } else if self@.mantissa == 0 {
                assert(int_text(0) =~= seq![48u8]);
            }
        }
        zero
    }
}

impl Clone for Decimal {
    fn clone(&self) -> (r: Self)
        ensures
            r@ == self@,
    {
        proof {
            use_type_invariant(self);
        }
        let mantissa = self.mantissa.clone();
        proof {
            assert(mantissa@ =~= self.mantissa@);
        }
        Decimal { mantissa, scale: self.scale }
    }
}

/// `t` is all ASCII digits.
fn is_ascii_digit_run(t: &[u8], from: usize, to: usize) -> (b: bool)
    requires
        from <= to <= t@.len(),
    ensures
        b == all_ascii_digits(t@.subrange(from as int, to as int)),
{
    let mut i = from;
    while i < to
        invariant
            from <= i <= to <= t@.len(),
            all_ascii_digits(t@.subrange(from as int, i as int)),
        decreases to - i,
    {
        if t[i] < 48u8 || t[i] > 57u8 {
            proof {
                let s = t@.subrange(from as int, to as int);
                assert(s[i - from] == t@[i as int]);
            }
            return false;
        }
        proof {
            let s = t@.subrange(from as int, i + 1);
            assert forall|j: int| 0 <= j < s.len() implies 48 <= #[trigger] s[j] <= 57 by {
                if j < i - from {
                    assert(s[j] == t@.subrange(from as int, i as int)[j]);
                }
            }
        }
        i = i + 1;
    }
    true
}

/// The index of the first dot at or after `from`, or the length.
fn find_dot(t: &[u8], from: usize) -> (d: usize)
    requires
        from <= t@.len(),
    ensures
        d == find_byte(t@, from as nat, 46),
{
    let mut i = from;
    while i < t.len()
        invariant
            from <= i <= t@.len(),
            find_byte(t@, from as nat, 46) == find_byte(t@, i as nat, 46),
        decreases t@.len() - i,
    {
        if t[i] == 46u8 {
            return i;
        }
        i = i + 1;
    }
    i
}

/// `t` from `from` on is an unsigned literal.
fn is_unsigned_literal_from(t: &[u8], from: usize) -> (b: bool)
    requires
        from <= t@.len(),
    ensures
        b == unsigned_literal(t@.subrange(from as int, t@.len() as int)),
{
    let ghost u = t@.subrange(from as int, t@.len() as int);
    let d = find_dot(t, from);
    proof {
        lemma_find_byte_shift(t@, from as nat);
        crate::numtext::lemma_find_byte_bounds(t@, from as nat, 46);
    }
    if from == t.len() {
        return false;
    }
    if !is_ascii_digit_run(t, from, d) {
        proof {
            assert(u.subrange(0, (d - from) as int) =~= t@.subrange(from as int, d as int));
        }
        return false;
    }
    proof {
        assert(u.subrange(0, (d - from) as int) =~= t@.subrange(from as int, d as int));
    }
    if d < t.len() {
        if d + 1 >= t.len() {
            return false;
        }
        let rest = is_ascii_digit_run(t, d + 1, t.len());
        proof {
            assert(u.subrange(d + 1 - from, u.len() as int) =~= t@.subrange(d + 1, t@.len() as int));
        }
        rest
    } else {
        true
    }
}

/// Finding a byte in a suffix finds it at the same place, counted from the start of the suffix.
proof fn lemma_find_byte_shift(t: Seq<u8>, from: nat)
    requires
        from <= t.len(),
    ensures
        find_byte(t.subrange(from as int, t.len() as int), 0, 46) + from == find_byte(t, from, 46),
{
    let u = t.subrange(from as int, t.len() as int);
    lemma_find_byte_shift_from(t, from, 0);
}

proof fn lemma_find_byte_shift_from(t: Seq<u8>, from: nat, k: nat)
    requires
        from + k <= t.len(),
    ensures
        find_byte(t.subrange(from as int, t.len() as int), k, 46) + from == find_byte(t, from + k, 46),
    decreases t.len() - from - k,
{
    let u = t.subrange(from as int, t.len() as int);
    if from + k < t.len() {
        assert(u[k as int] == t[(from + k) as int]);
        if t[(from + k) as int] != 46 {
            lemma_find_byte_shift_from(t, from, k + 1);
        }
    }
}

/// `t` is a decimal literal.
fn is_decimal_literal(t: &[u8]) -> (b: bool)
    ensures
        b == decimal_literal(t@),
{
    if t.len() > 0 && t[0] == 45u8 {
        let r = is_unsigned_literal_from(t, 1);
        proof {
            assert(t@.drop_first() =~= t@.subrange(1, t@.len() as int));
        }
        r
    } else {
        let r = is_unsigned_literal_from(t, 0);
        proof {
            assert(t@ =~= t@.subrange(0, t@.len() as int));
        }
        r
    }
}

} // verus!
