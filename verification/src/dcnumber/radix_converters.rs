//! Reading unsigned numbers from ASCII text: decimal fractions, and integers in radix 2 to 16.
use super::digit_ops::{frac_len, is_normalized, scaled_value};
use super::digits::{
    all_digits, digits_value, lemma_digits_value_concat, lemma_digits_value_leading_zeros,
    lemma_digits_value_trailing_zeros, lemma_pow10_add, lemma_pow10_zero_one, pow10, zeros,
};
use super::digits_type::DigitsType;
use super::error::ParseDCNumberError;
use super::small_ints;
use super::traits::FromBytes;
use super::unsigned::{is_product, is_sum, view_frac, view_scaled, UnsignedDCNumber};
use vstd::prelude::*;
use vstd::string::StringSliceAdditionalSpecFns;

verus! {

/// `c` is one of the ASCII characters `0` to `9`.
pub open spec fn is_ascii_digit(c: u8) -> bool {
    48 <= c <= 57
}

/// The decimal digits that the ASCII characters `s` stand for.
pub open spec fn ascii_to_digits(s: Seq<u8>) -> Seq<u8> {
    s.map_values(|c: u8| (c - 48) as u8)
}

/// The number of ASCII digits at the start of `s`.
pub open spec fn first_non_digit(s: Seq<u8>) -> nat
    decreases s.len(),
{
    if s.len() == 0 {
        0
    } else if is_ascii_digit(s[0]) {
        1 + first_non_digit(s.drop_first())
    } else {
        0
    }
}

/// The error for the first character of `s` that is not a digit: a repeated dot or an
/// invalid digit.
pub open spec fn bad_character_error(s: Seq<u8>) -> ParseDCNumberError {
    if s[first_non_digit(s) as int] == 46 {
        ParseDCNumberError::RepeatedDot
    } else {
        ParseDCNumberError::InvalidDigit
    }
}

/// The number of `0` characters at the start of `s`.
pub open spec fn leading_zero_chars(s: Seq<u8>) -> nat
    decreases s.len(),
{
    if s.len() > 0 && s[0] == 48 {
        1 + leading_zero_chars(s.drop_first())
    } else {
        0
    }
}

/// `s` without its trailing `0` characters.
pub open spec fn trim_zero_chars(s: Seq<u8>) -> Seq<u8>
    decreases s.len(),
{
    if s.len() > 0 && s.last() == 48 {
        trim_zero_chars(s.drop_last())
    } else {
        s
    }
}

/// The index of the first `.` in `s`, or its length when there is none.
pub open spec fn dot_index(s: Seq<u8>) -> nat
    decreases s.len(),
{
    if s.len() == 0 {
        0
    } else if s[0] == 46 {
        0
    } else {
        1 + dot_index(s.drop_first())
    }
}

/// The digits after the first dot, none when there is no dot.
pub open spec fn after_dot(s: Seq<u8>) -> Seq<u8> {
    if dot_index(s) < s.len() {
        s.subrange(dot_index(s) as int + 1, s.len() as int)
    } else {
        Seq::empty()
    }
}

/// The integer digits of decimal text: the characters before the dot without leading zeros,
/// or a single zero when nothing else is left.
pub open spec fn decimal_integer_digits(s: Seq<u8>) -> Seq<u8> {
    let int_part = s.subrange(0, dot_index(s) as int);
    let stripped = int_part.skip(leading_zero_chars(int_part) as int);
    if stripped.len() == 0 {
        seq![0u8]
    } else {
        ascii_to_digits(stripped)
    }
}

/// What decimal text denotes: its digits in normal form and the number of integer digits,
/// or why it denotes no number.
pub open spec fn decimal_parse(s: Seq<u8>) -> Result<(Seq<u8>, nat), ParseDCNumberError> {
    let int_part = s.subrange(0, dot_index(s) as int);
    let fraction = trim_zero_chars(after_dot(s));
    if s.len() == 0 {
        Err(ParseDCNumberError::EmptyString)
    } else if first_non_digit(int_part) < int_part.len() {
        Err(bad_character_error(int_part))
    } else if first_non_digit(fraction) < fraction.len() {
        Err(bad_character_error(fraction))
    } else {
        let int_digits = decimal_integer_digits(s);
        Ok((int_digits + ascii_to_digits(fraction), int_digits.len()))
    }
}

/// The value of the character `c` as a digit in `radix`, if it is one: `0`-`9` and `A`-`F`.
pub open spec fn radix_digit(c: u8, radix: nat) -> Option<nat> {
    if 48 <= c <= 57 && c - 48 < radix {
        Some((c - 48) as nat)
    } else if 65 <= c <= 70 && c - 55 < radix {
        Some((c - 55) as nat)
    } else {
        None
    }
}

/// The integer that the characters `s` denote in `radix`, or why they denote none.
pub open spec fn radix_parse(s: Seq<u8>, radix: nat) -> Result<nat, ParseDCNumberError>
    decreases s.len(),
{
    if s.len() == 0 {
        Ok(0)
    } else {
        match radix_parse(s.drop_last(), radix) {
            Err(e) => Err(e),
            Ok(v) => match radix_digit(s.last(), radix) {
                None => Err(ParseDCNumberError::InvalidDigit),
                Some(d) => Ok(v * radix + d),
            },
        }
    }
}

/// `r` is what reading the decimal text `bytes` gives.
pub open spec fn decimal_parses_to(r: Result<UnsignedDCNumber, ParseDCNumberError>, bytes: Seq<u8>) -> bool {
    match decimal_parse(bytes) {
        Ok(v) => r matches Ok(n) && n@ == v,
        Err(e) => r == Err::<UnsignedDCNumber, ParseDCNumberError>(e),
    }
}

/// `r` is what reading the integer text `bytes` in `radix` gives.
pub open spec fn integer_parses_to(
    r: Result<UnsignedDCNumber, ParseDCNumberError>,
    bytes: Seq<u8>,
    radix: nat,
) -> bool {
    match radix_parse(bytes, radix) {
        Ok(v) => r matches Ok(n) && view_frac(n@) == 0 && digits_value(n@.0) == v,
        Err(e) => r == Err::<UnsignedDCNumber, ParseDCNumberError>(e),
    }
}

/// `r` is what parsing `bytes` in `radix` gives: decimal fractions in radix 10, integers in
/// the other radixes from 2 to 16.
pub open spec fn parses_to(
    r: Result<UnsignedDCNumber, ParseDCNumberError>,
    bytes: Seq<u8>,
    radix: nat,
) -> bool {
    if radix == 10 {
        decimal_parses_to(r, bytes)
    } else if 2 <= radix <= 16 {
        integer_parses_to(r, bytes, radix)
    } else {
        r == Err::<UnsignedDCNumber, ParseDCNumberError>(ParseDCNumberError::InvalidRadix)
    }
}

/// Once a prefix fails to parse, so does the whole.
proof fn lemma_radix_parse_err_extends(s: Seq<u8>, k: int, radix: nat)
    requires
        0 <= k <= s.len(),
        radix_parse(s.subrange(0, k), radix) is Err,
    ensures
        radix_parse(s, radix) == radix_parse(s.subrange(0, k), radix),
    decreases s.len() - k,
{
    if k < s.len() {
        assert(s.subrange(0, k + 1).drop_last() =~= s.subrange(0, k));
        lemma_radix_parse_err_extends(s, k + 1, radix);
    } else {
        assert(s.subrange(0, k) =~= s);
    }
}

/// A prefix of digits can be skipped when counting digits.
proof fn lemma_first_non_digit_skip(s: Seq<u8>, p: int)
    requires
        0 <= p <= s.len(),
        forall|j: int| 0 <= j < p ==> is_ascii_digit(#[trigger] s[j]),
    ensures
        first_non_digit(s) == p + first_non_digit(s.skip(p)),
        first_non_digit(s) < s.len() ==> s[first_non_digit(s) as int] == s.skip(p)[first_non_digit(
            s.skip(p),
        ) as int],
    decreases p,
{
    if p > 0 {
        lemma_first_non_digit_skip(s.drop_first(), p - 1);
        assert(s.drop_first().skip(p - 1) =~= s.skip(p));
    } else {
        assert(s.skip(0) =~= s);
    }
}

/// Counting the digits of a sequence of digits.
proof fn lemma_first_non_digit_all(s: Seq<u8>)
    requires
        forall|j: int| 0 <= j < s.len() ==> is_ascii_digit(#[trigger] s[j]),
    ensures
        first_non_digit(s) == s.len(),
{
    lemma_first_non_digit_skip(s, s.len() as int);
    assert(s.skip(s.len() as int) =~= Seq::<u8>::empty());
}

/// The first non-digit is not a digit, and all before it are.
proof fn lemma_first_non_digit_props(s: Seq<u8>)
    ensures
        first_non_digit(s) <= s.len(),
        first_non_digit(s) < s.len() ==> !is_ascii_digit(s[first_non_digit(s) as int]),
        forall|j: int| 0 <= j < first_non_digit(s) ==> is_ascii_digit(#[trigger] s[j]),
    decreases s.len(),
{
    if s.len() > 0 && is_ascii_digit(s[0]) {
        lemma_first_non_digit_props(s.drop_first());
        assert forall|j: int| 0 <= j < first_non_digit(s) implies is_ascii_digit(#[trigger] s[j]) by {
            if j > 0 {
                assert(s[j] == s.drop_first()[j - 1]);
            }
        }
    }
}

/// Digit characters give digits.
proof fn lemma_ascii_to_digits(s: Seq<u8>)
    requires
        forall|j: int| 0 <= j < s.len() ==> is_ascii_digit(#[trigger] s[j]),
    ensures
        all_digits(ascii_to_digits(s)),
        ascii_to_digits(s).len() == s.len(),
        forall|j: int| 0 <= j < s.len() ==> #[trigger] ascii_to_digits(s)[j] == s[j] - 48,
{
}

/// Trimming trailing zeros leaves a last character that is not zero.
proof fn lemma_trim_zero_chars(s: Seq<u8>)
    ensures
        trim_zero_chars(s).len() > 0 ==> trim_zero_chars(s).last() != 48,
        trim_zero_chars(s).len() <= s.len(),
        trim_zero_chars(s) =~= s.take(trim_zero_chars(s).len() as int),
    decreases s.len(),
{
    if s.len() > 0 && s.last() == 48 {
        lemma_trim_zero_chars(s.drop_last());
    }
}

/// Reading numbers from ASCII text.
pub trait AsciiConverter {
    fn convert_bytes(&self, bytes: &[u8]) -> Result<UnsignedDCNumber, ParseDCNumberError>
        requires
            bytes@.len() < usize::MAX / 8,
    ;
}

impl AsciiConverter for DecAsciiConverter {
    fn convert_bytes(&self, bytes: &[u8]) -> (r: Result<UnsignedDCNumber, ParseDCNumberError>)
        ensures
            decimal_parses_to(r, bytes@),
    {
        self.convert_decimal(bytes)
    }
}

impl DecAsciiConverter {
    /// Reads a decimal fraction: digits, optionally a dot and more digits.
    pub fn convert_decimal(&self, bytes: &[u8]) -> (r: Result<UnsignedDCNumber, ParseDCNumberError>)
        ensures
            decimal_parses_to(r, bytes@),
    {
        if bytes.len() == 0 {
            return Err(ParseDCNumberError::EmptyString);
        }
        let mut digits: Vec<u8> = Vec::new();
        let (integer_part, fractional_part) = split_fractional(bytes);
        let ghost ip = integer_part@;
        let mut p: usize = 0;
        assert(ip.skip(0) =~= ip);
        while p < integer_part.len() && integer_part[p] == 48u8
            invariant
                p <= ip.len(),
                ip == integer_part@,
                leading_zero_chars(ip) == p + leading_zero_chars(ip.skip(p as int)),
                forall|j: int| 0 <= j < p ==> #[trigger] ip[j] == 48,
            decreases ip.len() - p,
        {
            assert(ip.skip(p as int).drop_first() =~= ip.skip(p + 1));
            p = p + 1;
        }
        proof {
            assert(forall|j: int| 0 <= j < p ==> is_ascii_digit(#[trigger] ip[j]));
            lemma_first_non_digit_skip(ip, p as int);
        }
        let separator: usize;
        if p < integer_part.len() {
            let rest = &integer_part[p..integer_part.len()];
            assert(rest@ =~= ip.skip(p as int));
            match self.append_digits(&mut digits, rest) {
                Ok(count) => {
                    separator = count;
                },
                Err(e) => {
                    return Err(e);
                },
            }
            proof {
                lemma_first_non_digit_props(rest@);
                assert(rest@.take(rest@.len() as int) =~= rest@);
            }
        } else {
            digits.push(0);
            separator = 1;
            proof {
                assert(ip.skip(p as int) =~= Seq::<u8>::empty());
                lemma_first_non_digit_all(ip);
                assert(digits@ =~= seq![0u8]);
            }
        }
        let ghost int_digits = digits@;
        assert(int_digits == decimal_integer_digits(bytes@));
        let ghost after = after_dot(bytes@);
        if fractional_part.len() > 1 {
            let frac = &fractional_part[1..fractional_part.len()];
            assert(frac@ =~= after);
            let mut e: usize = frac.len();
            assert(frac@.take(e as int) =~= frac@);
            while e > 0 && frac[e - 1] == 48u8
                invariant
                    e <= frac@.len(),
                    trim_zero_chars(frac@) == trim_zero_chars(frac@.take(e as int)),
                decreases e,
            {
                assert(frac@.take(e as int).drop_last() =~= frac@.take(e - 1));
                e = e - 1;
            }
            let kept = &frac[0..e];
            assert(kept@ =~= frac@.take(e as int));
            assert(trim_zero_chars(after) == kept@);
            if e > 0 {
                match self.append_digits(&mut digits, kept) {
                    Ok(_) => {},
                    Err(e) => {
                        return Err(e);
                    },
                }
                proof {
                    lemma_first_non_digit_props(kept@);
                    assert(kept@.take(kept@.len() as int) =~= kept@);
                }
            } else {
                assert(kept@ =~= Seq::<u8>::empty());
                assert(digits@ =~= int_digits + ascii_to_digits(kept@));
            }
        } else {
            proof {
                if dot_index(bytes@) < bytes@.len() {
                    assert(after =~= Seq::<u8>::empty());
                }
                assert(trim_zero_chars(after) =~= Seq::<u8>::empty());
                assert(digits@ =~= int_digits + ascii_to_digits(trim_zero_chars(after)));
            }
        }
        proof {
            let fraction = trim_zero_chars(after);
            lemma_trim_zero_chars(after);
            lemma_first_non_digit_props(fraction);
            lemma_ascii_to_digits(fraction);
            lemma_first_non_digit_props(ip.skip(p as int));
            if p < ip.len() {
                lemma_ascii_to_digits(ip.skip(p as int));
                assert(int_digits[0] == ip[p as int] - 48);
            }
            assert(all_digits(digits@)) by {
                assert forall|j: int| 0 <= j < digits@.len() implies #[trigger] digits@[j] < 10 by {
                    if j >= int_digits.len() {
                        assert(digits@[j] == ascii_to_digits(fraction)[j - int_digits.len()]);
                    } else {
                        assert(digits@[j] == int_digits[j]);
                    }
                }
            }
            if digits@.len() > separator {
                assert(digits@.last() == ascii_to_digits(fraction).last());
            }
        }
        Ok(UnsignedDCNumber::new(DigitsType::from(digits), separator))
    }
}

/// Splits decimal text at its first dot; the dot stays with the fractional part.
#[inline]
fn split_fractional(bytes: &[u8]) -> (r: (&[u8], &[u8]))
    ensures
        r.0@ == bytes@.subrange(0, dot_index(bytes@) as int),
        r.1@ == bytes@.subrange(dot_index(bytes@) as int, bytes@.len() as int),
        dot_index(bytes@) <= bytes@.len(),
{
    let mut i: usize = 0;
    assert(bytes@.skip(0) =~= bytes@);
    while i < bytes.len() && bytes[i] != 46u8
        invariant
            i <= bytes@.len(),
            dot_index(bytes@) == i + dot_index(bytes@.skip(i as int)),
            forall|j: int| 0 <= j < i ==> bytes@[j] != 46,
        decreases bytes@.len() - i,
    {
        assert(bytes@.skip(i as int).drop_first() =~= bytes@.skip(i + 1));
        i = i + 1;
    }
    (&bytes[0..i], &bytes[i..bytes.len()])
}

/// Reads decimal fractions.
#[derive(Debug, PartialEq, Copy, Clone)]
pub struct DecAsciiConverter {}

impl DecAsciiConverter {
    pub fn new() -> Self {
        Self {  }
    }

    /// Appends the digits of the ASCII characters `buffer` to `digits`, up to the first
    /// character that is not a digit, which is an error.
    #[inline]
    fn append_digits(&self, digits: &mut Vec<u8>, buffer: &[u8]) -> (r: Result<
        usize,
        ParseDCNumberError,
    >)
        ensures
            final(digits)@ == old(digits)@ + ascii_to_digits(
                buffer@.take(first_non_digit(buffer@) as int),
            ),
            first_non_digit(buffer@) <= buffer@.len(),
            first_non_digit(buffer@) == buffer@.len() ==> r == Ok::<usize, ParseDCNumberError>(
                buffer@.len() as usize,
            ),
            first_non_digit(buffer@) < buffer@.len() ==> r == Err::<usize, ParseDCNumberError>(
                bad_character_error(buffer@),
            ),
    {
        let mut counter: usize = 0;
        assert(buffer@.skip(0) =~= buffer@);
        assert(ascii_to_digits(buffer@.take(0)) =~= Seq::<u8>::empty());
        assert(digits@ =~= old(digits)@ + ascii_to_digits(buffer@.take(0)));
        while counter < buffer.len()
            invariant
                counter <= buffer@.len(),
                forall|j: int| 0 <= j < counter ==> is_ascii_digit(#[trigger] buffer@[j]),
                first_non_digit(buffer@) == counter + first_non_digit(buffer@.skip(counter as int)),
                digits@ == old(digits)@ + ascii_to_digits(buffer@.take(counter as int)),
            decreases buffer@.len() - counter,
        {
            proof {
                assert(buffer@.skip(counter as int).drop_first() =~= buffer@.skip(counter + 1));
            }
            let ch = buffer[counter];
            if 48u8 <= ch && ch <= 57u8 {
                digits.push(ch - 48u8);
                proof {
                    assert(ascii_to_digits(buffer@.take(counter + 1)) =~= ascii_to_digits(
                        buffer@.take(counter as int),
                    ).push((ch - 48) as u8));
                }
                counter = counter + 1;
            } else if ch == 46u8 {
                return Err(ParseDCNumberError::RepeatedDot);
            } else {
                return Err(ParseDCNumberError::InvalidDigit);
            }
        }
        proof {
            assert(buffer@.skip(counter as int) =~= Seq::<u8>::empty());
            assert(buffer@.take(counter as int) =~= buffer@);
        }
        Ok(counter)
    }
}

/// Reads integers in a radix from 2 to 16.
#[derive(Debug, PartialEq, Copy, Clone)]
pub struct RadixAsciiConverter {
    radix: u8,
}

impl AsciiConverter for RadixAsciiConverter {
    fn convert_bytes(&self, bytes: &[u8]) -> (r: Result<UnsignedDCNumber, ParseDCNumberError>)
        ensures
            integer_parses_to(r, bytes@, self.spec_radix() as nat),
    {
        proof {
            use_type_invariant(self);
        }
        let radix = self.radix;
        let mut acc = small_ints::zero();
        let mut i: usize = 0;
        proof {
            lemma_pow10_zero_one(0);
            assert(bytes@.take(0) =~= Seq::<u8>::empty());
        }
        while i < bytes.len()
            invariant
                2 <= radix <= 16,
                radix == self.spec_radix(),
                i <= bytes@.len(),
                bytes@.len() < usize::MAX / 8,
                acc.wf(),
                view_frac(acc@) == 0,
                acc@.0.len() <= 7 * i + 1,
                radix_parse(bytes@.take(i as int), radix as nat) == Ok::<nat, ParseDCNumberError>(
                    digits_value(acc@.0),
                ),
            decreases bytes@.len() - i,
        {
            proof {
                assert(bytes@.take(i + 1).drop_last() =~= bytes@.take(i as int));
            }
            match UnsignedDCNumber::from_byte_radix_u8(bytes[i], radix) {
                Err(e) => {
                    proof {
                        lemma_radix_parse_err_extends(bytes@, i + 1, radix as nat);
                        assert(bytes@.subrange(0, i + 1) =~= bytes@.take(i + 1));
                    }
                    return Err(e);
                },
                Ok(m) => {
                    let ghost before = acc@;
                    let product = acc * radix;
                    let ghost prod = product@;
                    proof {
                        use_type_invariant(&m);
                    }
                    acc = m + product;
                    proof {
                        lemma_pow10_zero_one(digits_value(before.0));
                        lemma_pow10_zero_one(digits_value(prod.0));
                        lemma_pow10_zero_one(digits_value(acc@.0));
                        lemma_pow10_zero_one(digits_value(m@.0));
                    }
                },
            }
            i = i + 1;
        }
        proof {
            assert(bytes@.take(i as int) =~= bytes@);
        }
        Ok(acc)
    }
}

impl RadixAsciiConverter {
    pub closed spec fn spec_radix(&self) -> u8 {
        self.radix
    }

    /// The radix is one that digits `0`-`9` and `A`-`F` can write.
    #[verifier::type_invariant]
    pub closed spec fn radix_in_range(&self) -> bool {
        2 <= self.radix <= 16
    }

    pub fn new(radix: u8) -> (r: Self)
        requires
            2 <= radix <= 16,
        ensures
            r.spec_radix() == radix,
    {
        Self { radix }
    }
}

impl FromBytes for UnsignedDCNumber {
    type Err = ParseDCNumberError;

    open spec fn reads_as(
        bytes: Seq<u8>,
        radix: u32,
        r: Result<UnsignedDCNumber, ParseDCNumberError>,
    ) -> bool {
        parses_to(r, bytes, radix as nat)
    }

    fn from_bytes_radix(bytes: &[u8], radix: u32) -> (r: Result<Self, ParseDCNumberError>)
        ensures
            parses_to(r, bytes@, radix as nat),
    {
        if radix == 10 {
            DecAsciiConverter::new().convert_bytes(bytes)
        } else if 2 <= radix && radix <= 16 {
            RadixAsciiConverter::new(radix as u8).convert_bytes(bytes)
        } else {
            Err(ParseDCNumberError::InvalidRadix)
        }
    }

    fn from_bytes(bytes: &[u8]) -> (r: Result<Self, ParseDCNumberError>)
        ensures
            decimal_parses_to(r, bytes@),
    {
        DecAsciiConverter::new().convert_decimal(bytes)
    }

    fn from_str_radix(s: &str, radix: u32) -> (r: Result<Self, ParseDCNumberError>)
        ensures
            parses_to(r, s.spec_bytes(), radix as nat),
    {
        UnsignedDCNumber::from_bytes_radix(s.as_bytes(), radix)
    }
}

impl std::str::FromStr for UnsignedDCNumber {
    type Err = ParseDCNumberError;

    fn from_str(s: &str) -> (r: Result<Self, ParseDCNumberError>)
        ensures
            decimal_parses_to(r, s.spec_bytes()),
    {
        DecAsciiConverter::new().convert_decimal(s.as_bytes())
    }
}

/// All characters of `s` are ASCII digits.
pub open spec fn all_ascii_digit_chars(s: Seq<u8>) -> bool {
    forall|j: int| 0 <= j < s.len() ==> is_ascii_digit(#[trigger] s[j])
}

/// `s` is a numeral: not empty, ASCII digits with at most one dot among them.
pub open spec fn is_numeral(s: Seq<u8>) -> bool {
    &&& s.len() > 0
    &&& all_ascii_digit_chars(s.subrange(0, dot_index(s) as int))
    &&& all_ascii_digit_chars(after_dot(s))
}

/// The digits of a numeral, without its dot.
pub open spec fn numeral_digits(s: Seq<u8>) -> Seq<u8> {
    ascii_to_digits(s.subrange(0, dot_index(s) as int) + after_dot(s))
}

/// The first dot is at `dot_index`, and there is none before it.
proof fn lemma_dot_index(s: Seq<u8>)
    ensures
        dot_index(s) <= s.len(),
        dot_index(s) < s.len() ==> s[dot_index(s) as int] == 46,
        forall|j: int| 0 <= j < dot_index(s) ==> #[trigger] s[j] != 46,
    decreases s.len(),
{
    if s.len() > 0 && s[0] != 46 {
        lemma_dot_index(s.drop_first());
        assert forall|j: int| 0 <= j < dot_index(s) implies #[trigger] s[j] != 46 by {
            if j > 0 {
                assert(s[j] == s.drop_first()[j - 1]);
            }
        }
    }
}

/// `s` is what trimming keeps, then zeros.
proof fn lemma_trim_rest(s: Seq<u8>)
    ensures
        s =~= trim_zero_chars(s) + s.skip(trim_zero_chars(s).len() as int),
        forall|j: int| 0 <= j < s.skip(trim_zero_chars(s).len() as int).len() ==> #[trigger] s.skip(
            trim_zero_chars(s).len() as int,
        )[j] == 48,
    decreases s.len(),
{
    lemma_trim_zero_chars(s);
    if s.len() > 0 && s.last() == 48 {
        lemma_trim_rest(s.drop_last());
        let t = trim_zero_chars(s);
        assert forall|j: int| 0 <= j < s.skip(t.len() as int).len() implies #[trigger] s.skip(
            t.len() as int,
        )[j] == 48 by {
            if t.len() + j < s.len() - 1 {
                assert(s.skip(t.len() as int)[j] == s.drop_last().skip(t.len() as int)[j]);
            }
        }
    }
}

/// A sequence is all digits exactly when what trimming keeps is.
proof fn lemma_trim_digits(s: Seq<u8>)
    ensures
        all_ascii_digit_chars(s) <==> all_ascii_digit_chars(trim_zero_chars(s)),
{
    lemma_trim_rest(s);
    let t = trim_zero_chars(s);
    let r = s.skip(t.len() as int);
    if all_ascii_digit_chars(t) {
        assert forall|j: int| 0 <= j < s.len() implies is_ascii_digit(#[trigger] s[j]) by {
            if j < t.len() {
                assert(s[j] == t[j]);
            } else {
                assert(s[j] == r[j - t.len()]);
            }
        }
    }
    if all_ascii_digit_chars(s) {
        assert forall|j: int| 0 <= j < t.len() implies is_ascii_digit(#[trigger] t[j]) by {
            assert(s[j] == t[j]);
        }
    }
}

/// The leading `0` characters come first, and the character after them is not `0`.
proof fn lemma_leading_zero_chars(s: Seq<u8>)
    ensures
        leading_zero_chars(s) <= s.len(),
        forall|j: int| 0 <= j < leading_zero_chars(s) ==> #[trigger] s[j] == 48,
        leading_zero_chars(s) < s.len() ==> s[leading_zero_chars(s) as int] != 48,
    decreases s.len(),
{
    if s.len() > 0 && s[0] == 48 {
        lemma_leading_zero_chars(s.drop_first());
        assert forall|j: int| 0 <= j < leading_zero_chars(s) implies #[trigger] s[j] == 48 by {
            if j > 0 {
                assert(s[j] == s.drop_first()[j - 1]);
            }
        }
    }
}

/// Digits read as a count of digit characters: all are digits exactly when the count is the
/// length.
proof fn lemma_all_digits_count(s: Seq<u8>)
    ensures
        all_ascii_digit_chars(s) <==> first_non_digit(s) == s.len(),
{
    lemma_first_non_digit_props(s);
    if all_ascii_digit_chars(s) {
        lemma_first_non_digit_all(s);
    }
}

/// Reading decimal text: it gives a number exactly when the text is a numeral, and then the
/// number is in normal form, has no more fractional digits than the text, and its value is
/// the value of the text's digits, with as many of them after the point as the text has after
/// its dot.
pub proof fn law_decimal_text_value(s: Seq<u8>)
    ensures
        decimal_parse(s) is Ok <==> is_numeral(s),
        decimal_parse(s) matches Ok(v) ==> is_normalized(v.0, v.1) && frac_len(v.0, v.1)
            <= after_dot(s).len() && scaled_value(v.0, v.1, after_dot(s).len()) == digits_value(
            numeral_digits(s),
        ),
{
    let ip = s.subrange(0, dot_index(s) as int);
    let after = after_dot(s);
    let fraction = trim_zero_chars(after);
    lemma_dot_index(s);
    lemma_all_digits_count(ip);
    lemma_all_digits_count(fraction);
    lemma_trim_digits(after);
    lemma_first_non_digit_props(ip);
    lemma_first_non_digit_props(fraction);
    if s.len() > 0 {
        assert(all_ascii_digit_chars(ip) <==> first_non_digit(ip) == ip.len());
        assert(all_ascii_digit_chars(after) <==> first_non_digit(fraction) == fraction.len());
        assert(is_numeral(s) <==> (first_non_digit(ip) == ip.len() && first_non_digit(fraction)
            == fraction.len()));
        assert(decimal_parse(s) is Ok <==> (first_non_digit(ip) == ip.len() && first_non_digit(
            fraction,
        ) == fraction.len()));
    }
    if is_numeral(s) {
        let k = leading_zero_chars(ip);
        let stripped = ip.skip(k as int);
        lemma_leading_zero_chars(ip);
        let int_digits = decimal_integer_digits(s);
        lemma_ascii_to_digits(fraction);
        lemma_ascii_to_digits(ip);
        lemma_trim_rest(after);
        lemma_trim_zero_chars(after);
        let rest = after.skip(fraction.len() as int);
        let f = after.len();
        let t = fraction.len();
        // the integer digits have the value of the characters before the dot
        assert(ascii_to_digits(ip) =~= zeros(k) + ascii_to_digits(stripped));
        lemma_digits_value_leading_zeros(k, ascii_to_digits(stripped));
        if stripped.len() == 0 {
            assert(ascii_to_digits(stripped) =~= Seq::<u8>::empty());
            assert(seq![0u8].drop_last() =~= Seq::<u8>::empty());
            assert(digits_value(seq![0u8]) == digits_value(Seq::<u8>::empty()) * 10 + 0);
        } else {
            assert(stripped[0] == ip[k as int]);
        }
        assert(digits_value(int_digits) == digits_value(ascii_to_digits(ip)));
        // the fraction is what trimming keeps, then zeros
        assert(ascii_to_digits(after) =~= ascii_to_digits(fraction) + zeros((f - t) as nat));
        lemma_digits_value_trailing_zeros(ascii_to_digits(fraction), (f - t) as nat);
        assert(numeral_digits(s) =~= ascii_to_digits(ip) + ascii_to_digits(after));
        lemma_digits_value_concat(ascii_to_digits(ip), ascii_to_digits(after));
        lemma_digits_value_concat(int_digits, ascii_to_digits(fraction));
        lemma_pow10_add(t, (f - t) as nat);
        let a = digits_value(int_digits);
        let b = digits_value(ascii_to_digits(fraction));
        assert((a * pow10(t) + b) * pow10((f - t) as nat) == a * (pow10(t) * pow10((f - t) as nat))
            + b * pow10((f - t) as nat)) by (nonlinear_arith);
        assert(t + (f - t) == f);
        let d = int_digits + ascii_to_digits(fraction);
        assert(frac_len(d, int_digits.len()) == t);
        // normal form
        assert(all_digits(d)) by {
            assert forall|j: int| 0 <= j < d.len() implies #[trigger] d[j] < 10 by {
                if j < int_digits.len() {
                    if stripped.len() > 0 {
                        assert(int_digits[j] == stripped[j] - 48);
                        assert(stripped[j] == ip[k + j]);
                    }
                } else {
                    assert(d[j] == ascii_to_digits(fraction)[j - int_digits.len()]);
                }
            }
        }
        if stripped.len() > 0 {
            assert(d[0] == stripped[0] - 48);
        }
        if t > 0 {
            assert(d.last() == ascii_to_digits(fraction)[t - 1]);
            assert(fraction.last() == fraction[t - 1]);
        }
    }
}

} // verus!
