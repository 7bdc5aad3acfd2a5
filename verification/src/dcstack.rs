//! The stack of a `dc` machine, which holds numbers and strings.
use vstd::prelude::*;
use vstd::string::StringSliceAdditionalSpecFns;
use crate::decimal::{
    decimal_plain_text,
    int_radix_text,
    mantissa_radix_text,
    plain_text,
    Decimal,
    DecimalValue,
};
use crate::instructions::append_bytes;
use crate::numtext::{all_ascii_digits, ascii_value};

verus! {

/// A value on the stack.
#[derive(Debug)]
pub enum MemoryCell {
    Str(Vec<u8>),
    Num(Decimal),
}

/// A value on the stack, as a value.
pub enum CellView {
    Str(Seq<u8>),
    Num(DecimalValue),
}

impl View for MemoryCell {
    type V = CellView;

    open spec fn view(&self) -> CellView {
        match self {
            MemoryCell::Str(s) => CellView::Str(s@),
            MemoryCell::Num(n) => CellView::Num(n@),
        }
    }
}

impl Clone for MemoryCell {
    fn clone(&self) -> (r: Self)
        ensures
            r@ == self@,
    {
        match self {
            MemoryCell::Str(s) => {
                let t = s.clone();
                assert(t@ =~= s@);
                MemoryCell::Str(t)
            },
            MemoryCell::Num(n) => MemoryCell::Num(n.clone()),
        }
    }
}

impl From<Decimal> for MemoryCell {
    fn from(n: Decimal) -> (r: MemoryCell) {
        MemoryCell::Num(n)
    }
}

impl vstd::std_specs::convert::FromSpecImpl<Decimal> for MemoryCell {
    open spec fn obeys_from_spec() -> bool {
        true
    }

    open spec fn from_spec(n: Decimal) -> MemoryCell {
        MemoryCell::Num(n)
    }
}

impl std::str::FromStr for MemoryCell {
    type Err = ();

    fn from_str(s: &str) -> (r: Result<MemoryCell, ()>)
        ensures
            r matches Ok(c) && c@ == CellView::Str(s.spec_bytes()),
    {
        Ok(MemoryCell::from_string(s))
    }
}

/// A value can be printed in `radix`: a string always; a number in radix ten, or in a radix
/// up to 36 when its scale is not negative and its mantissa has at least as many digits
/// there.
pub open spec fn printable(c: CellView, radix: u32) -> bool {
    match c {
        CellView::Str(_) => true,
        CellView::Num(v) => radix == 10 || (2 <= radix <= 36 && 0 <= v.scale
            <= int_radix_text(v.mantissa, radix as nat).len()),
    }
}

/// How a value is printed in `radix`: a string as it is; a number in radix ten written out
/// in full; in another radix, the digits of its mantissa in that radix with a dot before the
/// last `scale` of them.
pub open spec fn cell_text(c: CellView, radix: u32) -> Seq<u8> {
    match c {
        CellView::Str(s) => s,
        CellView::Num(v) => if radix == 10 {
            plain_text(v)
        } else {
            let t = int_radix_text(v.mantissa, radix as nat);
            if v.scale > 0 {
                let cut = t.len() - v.scale;
                t.subrange(0, cut) + seq![46u8] + t.subrange(cut, t.len() as int)
            } else {
                t
            }
        },
    }
}

/// The values from the top of the stack down, each followed by a newline.
pub open spec fn stack_text(s: Seq<CellView>, radix: u32) -> Seq<u8>
    decreases s.len(),
{
    if s.len() == 0 {
        Seq::empty()
    } else {
        cell_text(s.last(), radix) + seq![10u8] + stack_text(s.drop_last(), radix)
    }
}

impl MemoryCell {
    /// The value is a number.
    pub fn is_num(&self) -> (b: bool)
        ensures
            b == (self@ is Num),
    {
        match self {
            MemoryCell::Num(..) => true,
            MemoryCell::Str(..) => false,
        }
    }

    /// The string with the bytes of `s`.
    pub fn from_string(s: &str) -> (r: MemoryCell)
        ensures
            r@ == CellView::Str(s.spec_bytes()),
    {
        let mut v: Vec<u8> = Vec::new();
        append_bytes(&mut v, s.as_bytes());
        assert(v@ =~= s.spec_bytes());
        MemoryCell::Str(v)
    }

    /// The number that `bigdecimal` reads from `s` in `radix`; `None` where it reads none.
    pub fn from_string_radix(s: &str, radix: u32) -> (r: Option<MemoryCell>)
        ensures
            match r {
                Some(c) => c@ is Num && crate::decimal::parsed_decimal(s.spec_bytes(), radix) == Some(c@->Num_0),
                None => crate::decimal::parsed_decimal(s.spec_bytes(), radix) is None,
            },
            radix == 10 && crate::decimal::decimal_literal(s.spec_bytes()) && s.spec_bytes().len()
                < i64::MAX ==> (r matches Some(c) && c@ == CellView::Num(crate::decimal::literal_value(s.spec_bytes()))),
    {
        match Decimal::parse_bytes(s.as_bytes(), radix) {
            Some(d) => Some(MemoryCell::Num(d)),
            None => None,
        }
    }

    /// The number that `bigdecimal` reads from `s` in radix ten.
    pub fn from_numstring(s: &str) -> (r: Option<MemoryCell>)
        ensures
            match r {
                Some(c) => c@ is Num && crate::decimal::parsed_decimal(s.spec_bytes(), 10) == Some(c@->Num_0),
                None => crate::decimal::parsed_decimal(s.spec_bytes(), 10) is None,
            },
            crate::decimal::decimal_literal(s.spec_bytes()) && s.spec_bytes().len() < i64::MAX ==> (
            r matches Some(c) && c@ == CellView::Num(crate::decimal::literal_value(s.spec_bytes()))),
    {
        MemoryCell::from_string_radix(s, 10)
    }

    /// The bytes of a string.
    pub fn as_bytes(&self) -> (r: Option<&[u8]>)
        ensures
            match self@ {
                CellView::Str(s) => r matches Some(b) && b@ == s,
                CellView::Num(_) => r is None,
            },
    {
        match self {
            MemoryCell::Num(..) => None,
            MemoryCell::Str(s) => Some(s.as_slice()),
        }
    }

    /// The number, if the value is one.
    pub fn num(self) -> (r: Option<Decimal>)
        ensures
            match self@ {
                CellView::Num(v) => r matches Some(n) && n@ == v,
                CellView::Str(_) => r is None,
            },
    {
        match self {
            MemoryCell::Str(..) => None,
            MemoryCell::Num(n) => Some(n),
        }
    }

    /// The value as it is printed in `radix`.
    pub fn to_str_radix(&self, radix: u32) -> (r: Vec<u8>)
        requires
            printable(self@, radix),
        ensures
            r@ == cell_text(self@, radix),
    {
        match self {
            MemoryCell::Num(n) => to_string_radix(n, radix),
            MemoryCell::Str(v) => {
                let t = v.clone();
                assert(t@ =~= v@);
                t
            },
        }
    }

    /// Applies `f` to a number; a string is refused.
    pub fn apply_num<F>(&self, f: F) -> (r: Result<MemoryCell, DCError>)
        where
            F: Fn(&Decimal) -> Decimal,
        requires
            forall|n: &Decimal| f.requires((n,)),
        ensures
            self@ is Str ==> r == Err::<MemoryCell, DCError>(DCError::NonNumericValue),
            self@ is Num ==> (r matches Ok(c) && exists|n: Decimal, m: Decimal|
                n@ == self@->Num_0 && #[trigger] f.ensures((&n,), m) && c@ == CellView::Num(m@)),
    {
        match self {
            MemoryCell::Num(n) => Ok(MemoryCell::Num(f(n))),
            MemoryCell::Str(..) => Err(DCError::NonNumericValue),
        }
    }

    /// Adds a number to a number; anything else leaves the value as it is.
    pub fn add_assign(&mut self, rhs: MemoryCell)
        ensures
            (old(self)@ is Num && rhs@ is Num) ==> final(self)@ == CellView::Num(
                crate::decimal::decimal_sum(old(self)@->Num_0, rhs@->Num_0),
            ),
            !(old(self)@ is Num && rhs@ is Num) ==> final(self)@ == old(self)@,
    {
        if let MemoryCell::Num(r) = rhs {
            if let MemoryCell::Num(l) = self {
                let sum = crate::decimal::add_decimals(l, &r);
                *self = MemoryCell::Num(sum);
            }
        }
    }

    /// Applies `f` to a number; a string is refused.
    pub fn apply_num_opt<F>(&self, f: F) -> (r: Result<MemoryCell, DCError>)
        where
            F: Fn(&Decimal) -> Option<Decimal>,
        requires
            forall|n: &Decimal| f.requires((n,)),
        ensures
            self@ is Str ==> r == Err::<MemoryCell, DCError>(DCError::NonNumericValue),
            self@ is Num ==> match r {
                Ok(c) => exists|n: Decimal, m: Decimal|
                    n@ == self@->Num_0 && #[trigger] f.ensures((&n,), Some(m)) && c@
                        == CellView::Num(m@),
                Err(e) => e == DCError::InternalConversionError && exists|n: Decimal|
                    n@ == self@->Num_0 && #[trigger] f.ensures((&n,), None),
            },
    {
        match self {
            MemoryCell::Num(n) => match f(n) {
                Some(m) => Ok(MemoryCell::Num(m)),
                None => Err(DCError::InternalConversionError),
            },
            MemoryCell::Str(..) => Err(DCError::NonNumericValue),
        }
    }
}

/// A value can be printed in `radix`.
pub(crate) fn cell_printable(c: &MemoryCell, radix: u32) -> (b: bool)
    ensures
        b == printable(c@, radix),
{
    match c {
        MemoryCell::Str(..) => true,
        MemoryCell::Num(n) => {
            if radix == 10 {
                return true;
            }
            if radix < 2 || radix > 36 || n.scale() < 0 {
                return false;
            }
            let digits = mantissa_radix_text(n, radix);
            n.scale() as u64 <= digits.len() as u64
        },
    }
}

/// The text of a number in `radix`.
fn to_string_radix(n: &Decimal, radix: u32) -> (r: Vec<u8>)
    requires
        printable(CellView::Num(n@), radix),
    ensures
        r@ == cell_text(CellView::Num(n@), radix),
{
    if radix == 10 {
        return decimal_plain_text(n);
    }
    let s = mantissa_radix_text(n, radix);
    let exp = n.scale();
    if exp > 0 {
        let cut = s.len() - exp as usize;
        let mut out: Vec<u8> = Vec::new();
        let mut i: usize = 0;
        while i < cut
            invariant
                cut <= s@.len(),
                i <= cut,
                out@ == s@.subrange(0, i as int),
            decreases cut - i,
        {
            out.push(s[i]);
            i = i + 1;
            assert(out@ =~= s@.subrange(0, i as int));
        }
        out.push(46u8);
        let mut j: usize = cut;
        while j < s.len()
            invariant
                cut <= j <= s@.len(),
                out@ == s@.subrange(0, cut as int) + seq![46u8] + s@.subrange(cut as int, j as int),
            decreases s@.len() - j,
        {
            out.push(s[j]);
            j = j + 1;
            assert(out@ =~= s@.subrange(0, cut as int) + seq![46u8] + s@.subrange(cut as int, j as int));
        }
        out
    } else {
        s
    }
}

/// What can go wrong on the stack.
#[derive(Clone, Debug, Copy, PartialEq, Eq, Structural)]
pub enum DCError {
    StackEmpty,
    NonNumericValue,
    NonStringValue,
    NumParseError,
    InternalConversionError,
}

/// The message of an error.
pub open spec fn error_message(e: DCError) -> Seq<char> {
    match e {
        DCError::StackEmpty => "stack empty"@,
        DCError::NonNumericValue => "non numeric value"@,
        DCError::NonStringValue => "non string value"@,
        DCError::NumParseError => "bytes do not represent a number"@,
        DCError::InternalConversionError => "internal conversion error"@,
    }
}

impl DCError {
    /// The message of the error.
    pub fn message(&self) -> (r: &'static str)
        ensures
            r@ == error_message(*self),
    {
        match self {
            DCError::StackEmpty => "stack empty",
            DCError::NonNumericValue => "non numeric value",
            DCError::NonStringValue => "non string value",
            DCError::NumParseError => "bytes do not represent a number",
            DCError::InternalConversionError => "internal conversion error",
        }
    }
}

/// The stack: its last element is the top.
#[derive(Debug)]
pub struct DCStack {
    stack: Vec<MemoryCell>,
}

/// The numbers that a stack of values holds at `i` and below, from the bottom up.
pub open spec fn cells_view(s: Seq<MemoryCell>) -> Seq<CellView> {
    s.map_values(|c: MemoryCell| c@)
}

impl View for DCStack {
    type V = Seq<CellView>;

    closed spec fn view(&self) -> Seq<CellView> {
        cells_view(self.stack@)
    }
}

/// The value of the literal that `integer`, a dot and `fraction` form, at the scale of
/// `fraction`.
pub open spec fn number_value(integer: Seq<u8>, fraction: Seq<u8>) -> DecimalValue {
    DecimalValue { mantissa: ascii_value(integer + fraction) as int, scale: fraction.len() as int }
}

/// The stack with its two top values exchanged.
pub open spec fn swapped(s: Seq<CellView>) -> Seq<CellView> {
    s.drop_last().drop_last().push(s.last()).push(s[s.len() - 2])
}

/// The top value and the one below it are numbers.
pub open spec fn top_two_numbers(s: Seq<CellView>) -> bool {
    s.len() >= 2 && s[s.len() - 1] is Num && s[s.len() - 2] is Num
}

impl DCStack {
    /// An empty stack.
    pub fn new() -> (r: DCStack)
        ensures
            r@ == Seq::<CellView>::empty(),
    {
        let r = DCStack { stack: Vec::new() };
        assert(r@ =~= Seq::<CellView>::empty());
        r
    }

    /// The number of values.
    pub fn len(&self) -> (n: usize)
        ensures
            n == self@.len(),
    {
        self.stack.len()
    }

    /// There are no values.
    pub fn is_empty(&self) -> (b: bool)
        ensures
            b == (self@.len() == 0),
    {
        self.stack.len() == 0
    }

    /// Pushes a value.
    pub fn push(&mut self, item: MemoryCell)
        ensures
            final(self)@ == old(self)@.push(item@),
    {
        self.stack.push(item);
        assert(self@ =~= old(self)@.push(item@));
    }

    /// Pushes the number `item`, at scale zero.
    pub fn push_num(&mut self, item: u64)
        ensures
            final(self)@ == old(self)@.push(CellView::Num(DecimalValue { mantissa: item as int, scale: 0 })),
    {
        self.push(MemoryCell::Num(Decimal::from_u64(item)))
    }

    /// Pushes a string with the bytes of `item`.
    pub fn push_str(&mut self, item: &[u8])
        ensures
            final(self)@ == old(self)@.push(CellView::Str(item@)),
    {
        let mut v: Vec<u8> = Vec::new();
        append_bytes(&mut v, item);
        assert(v@ =~= item@);
        self.push(MemoryCell::Str(v))
    }

    /// Pushes the number that the decimal digits `integer`, a dot and the digits `fraction`
    /// form, at the scale of `fraction`. Only radix ten is read, and there must be a digit.
    pub fn push_bytes_as_num(&mut self, integer: &[u8], fraction: &[u8], radix: u32) -> (r: Result<(), DCError>)
        requires
            radix == 10,
            all_ascii_digits(integer@),
            all_ascii_digits(fraction@),
            integer@.len() + fraction@.len() > 0,
            integer@.len() + fraction@.len() + 1 < i64::MAX,
        ensures
            r is Ok,
            final(self)@ == old(self)@.push(CellView::Num(number_value(integer@, fraction@))),
    {
        let mut v: Vec<u8> = Vec::new();
        append_bytes(&mut v, integer);
        if fraction.len() > 0 {
            v.push(46u8);
            append_bytes(&mut v, fraction);
            assert(v@ =~= integer@ + seq![46u8] + fraction@);
        }
        proof {
            lemma_literal_of_parts(integer@, fraction@, v@);
        }
        match Decimal::from_literal(v.as_slice()) {
            Some(n) => {
                self.push(MemoryCell::Num(n));
                Ok(())
            },
            None => Err(DCError::NumParseError),
        }
    }

    /// Writes the values in `radix`, from the top down, each on a line of its own.
    pub fn write_to(&self, w: &mut Vec<u8>, radix: u32)
        requires
            forall|i: int| 0 <= i < self@.len() ==> printable(#[trigger] self@[i], radix),
        ensures
            final(w)@ == old(w)@ + stack_text(self@, radix),
    {
        let mut i = self.stack.len();
        assert(self@.subrange(0, i as int) =~= self@);
        while i > 0
            invariant
                i <= self@.len(),
                self@.len() == self.stack@.len(),
                forall|k: int| 0 <= k < self@.len() ==> printable(#[trigger] self@[k], radix),
                w@ + stack_text(self@.subrange(0, i as int), radix) == old(w)@ + stack_text(self@, radix),
            decreases i,
        {
            let ghost before = w@;
            proof {
                assert(self@[i - 1] == self.stack@[i - 1]@);
            }
            let text = self.stack[i - 1].to_str_radix(radix);
            append_bytes(w, text.as_slice());
            w.push(10u8);
            proof {
                let prefix = self@.subrange(0, i as int);
                assert(prefix.drop_last() =~= self@.subrange(0, i - 1));
                assert(w@ =~= before + cell_text(prefix.last(), radix) + seq![10u8]);
                assert(before + stack_text(prefix, radix) =~= w@ + stack_text(self@.subrange(0, i - 1), radix));
            }
            i = i - 1;
        }
        proof {
            assert(self@.subrange(0, 0) =~= Seq::<CellView>::empty());
            assert(w@ + Seq::<u8>::empty() =~= w@);
        }
    }

    /// Takes the top value.
    pub fn pop(&mut self) -> (r: Result<MemoryCell, DCError>)
        ensures
            old(self)@.len() == 0 ==> r == Err::<MemoryCell, DCError>(DCError::StackEmpty) && final(self)@ == old(self)@,
            old(self)@.len() > 0 ==> (r matches Ok(c) && c@ == old(self)@.last() && final(self)@ == old(self)@.drop_last()),
    {
        match self.stack.pop() {
            Some(item) => {
                assert(self@ =~= old(self)@.drop_last());
                Ok(item)
            },
            None => Err(DCError::StackEmpty),
        }
    }

    /// Takes the top value if it is a number; a string stays.
    pub fn pop_num(&mut self) -> (r: Result<Decimal, DCError>)
        ensures
            old(self)@.len() == 0 ==> r == Err::<Decimal, DCError>(DCError::StackEmpty) && final(self)@ == old(self)@,
            old(self)@.len() > 0 && old(self)@.last() is Str ==> r == Err::<Decimal, DCError>(DCError::NonNumericValue) && final(self)@ == old(self)@,
            old(self)@.len() > 0 && old(self)@.last() is Num ==> (r matches Ok(n) && n@ == old(self)@.last()->Num_0 && final(self)@ == old(self)@.drop_last()),
    {
        match self.pop() {
            Ok(MemoryCell::Num(n)) => Ok(n),
            Ok(MemoryCell::Str(s)) => {
                self.push(MemoryCell::Str(s));
                assert(self@ =~= old(self)@);
                Err(DCError::NonNumericValue)
            },
            Err(e) => Err(e),
        }
    }

    /// Takes the top value if it is a string; a number stays.
    pub fn pop_str(&mut self) -> (r: Result<Vec<u8>, DCError>)
        ensures
            old(self)@.len() == 0 ==> r == Err::<Vec<u8>, DCError>(DCError::StackEmpty) && final(self)@ == old(self)@,
            old(self)@.len() > 0 && old(self)@.last() is Num ==> r == Err::<Vec<u8>, DCError>(DCError::NonStringValue) && final(self)@ == old(self)@,
            old(self)@.len() > 0 && old(self)@.last() is Str ==> (r matches Ok(s) && s@ == old(self)@.last()->Str_0 && final(self)@ == old(self)@.drop_last()),
    {
        match self.pop() {
            Ok(MemoryCell::Num(n)) => {
                self.push(MemoryCell::Num(n));
                assert(self@ =~= old(self)@);
                Err(DCError::NonStringValue)
            },
            Ok(MemoryCell::Str(s)) => Ok(s),
            Err(e) => Err(e),
        }
    }

    /// The top value.
    pub fn peek(&self) -> (r: Result<&MemoryCell, DCError>)
        ensures
            self@.len() == 0 ==> r == Err::<&MemoryCell, DCError>(DCError::StackEmpty),
            self@.len() > 0 ==> (r matches Ok(c) && c@ == self@.last()),
    {
        if self.stack.len() > 0 {
            Ok(&self.stack[self.stack.len() - 1])
        } else {
            Err(DCError::StackEmpty)
        }
    }

    /// Pushes a copy of the top value.
    pub fn dup(&mut self) -> (r: Result<(), DCError>)
        ensures
            old(self)@.len() == 0 ==> r == Err::<(), DCError>(DCError::StackEmpty) && final(self)@ == old(self)@,
            old(self)@.len() > 0 ==> r is Ok && final(self)@ == old(self)@.push(old(self)@.last()),
    {
        let tos = match self.peek() {
            Ok(c) => c.clone(),
            Err(e) => {
                return Err(e);
            },
        };
        self.push(tos);
        Ok(())
    }

    /// Exchanges the two top values.
    pub fn swap(&mut self) -> (r: Result<(), DCError>)
        ensures
            old(self)@.len() < 2 ==> r == Err::<(), DCError>(DCError::StackEmpty) && final(self)@ == old(self)@,
            old(self)@.len() >= 2 ==> r is Ok && final(self)@ == swapped(old(self)@),
    {
        let former_tos = match self.pop() {
            Ok(c) => c,
            Err(e) => {
                return Err(e);
            },
        };
        match self.pop() {
            Ok(memory_cell) => {
                self.push(former_tos);
                self.push(memory_cell);
                Ok(())
            },
            Err(stack_error) => {
                self.push(former_tos);
                assert(self@ =~= old(self)@);
                Err(stack_error)
            },
        }
    }

    /// Removes every value.
    pub fn clear(&mut self) -> (r: Result<(), DCError>)
        ensures
            r is Ok,
            final(self)@ == Seq::<CellView>::empty(),
    {
        self.stack.clear();
        assert(self@ =~= Seq::<CellView>::empty());
        Ok(())
    }

    /// The number below the top and the number on top, when the two top values are numbers.
    pub(crate) fn numbers_on_top(&self) -> (r: Option<(&Decimal, &Decimal)>)
        ensures
            r is Some <==> top_two_numbers(self@),
            r matches Some((a, b)) ==> a@ == self@[self@.len() - 2]->Num_0 && b@ == self@.last()->Num_0,
    {
        let len = self.stack.len();
        if len < 2 {
            return None;
        }
        proof {
            assert(self@[len - 1] == self.stack@[len - 1]@);
            assert(self@[len - 2] == self.stack@[len - 2]@);
        }
        match (&self.stack[len - 2], &self.stack[len - 1]) {
            (MemoryCell::Num(a), MemoryCell::Num(b)) => Some((a, b)),
            _ => None,
        }
    }

    /// Every value can be printed in `radix`.
    pub(crate) fn all_printable(&self, radix: u32) -> (b: bool)
        ensures
            b == forall|i: int| 0 <= i < self@.len() ==> printable(#[trigger] self@[i], radix),
    {
        let mut i: usize = 0;
        while i < self.stack.len()
            invariant
                i <= self@.len(),
                self@.len() == self.stack@.len(),
                forall|k: int| 0 <= k < i ==> printable(#[trigger] self@[k], radix),
            decreases self@.len() - i,
        {
            proof {
                assert(self@[i as int] == self.stack@[i as int]@);
            }
            if !cell_printable(&self.stack[i], radix) {
                return false;
            }
            i = i + 1;
        }
        true
    }

    /// Replaces the top value; the stack must not be empty.
    pub(crate) fn replace_top(&mut self, item: MemoryCell)
        requires
            old(self)@.len() > 0,
        ensures
            final(self)@ == old(self)@.drop_last().push(item@),
    {
        let _ = self.stack.pop();
        self.stack.push(item);
        assert(self@ =~= old(self)@.drop_last().push(item@));
    }

    /// Replaces the two top values by `item`; there must be two.
    pub(crate) fn replace_top_two(&mut self, item: MemoryCell)
        requires
            old(self)@.len() >= 2,
        ensures
            final(self)@ == old(self)@.drop_last().drop_last().push(item@),
    {
        let _ = self.stack.pop();
        let _ = self.stack.pop();
        self.stack.push(item);
        assert(self@ =~= old(self)@.drop_last().drop_last().push(item@));
    }

    /// Replaces the two top numbers by what `f` computes from them, the lower one first; it
    /// fails, and leaves the stack as it is, when there are fewer than two values or they are
    /// not both numbers.
    pub fn binary_apply_and_consume_tos<F>(&mut self, f: F) -> (r: Result<(), DCError>)
        where
            F: Fn(&Decimal, &Decimal) -> Decimal,
        requires
            top_two_numbers(old(self)@) ==> forall|a: &Decimal, b: &Decimal|
                a@ == old(self)@[old(self)@.len() - 2]->Num_0 && b@ == old(self)@.last()->Num_0
                    ==> #[trigger] f.requires((a, b)),
        ensures
            old(self)@.len() < 2 ==> r == Err::<(), DCError>(DCError::StackEmpty) && final(self)@ == old(self)@,
            old(self)@.len() >= 2 && !top_two_numbers(old(self)@) ==> r == Err::<(), DCError>(
                DCError::NonNumericValue,
            ) && final(self)@ == old(self)@,
            top_two_numbers(old(self)@) ==> r is Ok && exists|a: Decimal, b: Decimal, c: Decimal|
                a@ == old(self)@[old(self)@.len() - 2]->Num_0 && b@ == old(self)@.last()->Num_0
                    && #[trigger] f.ensures((&a, &b), c) && final(self)@ == old(self)@.drop_last().drop_last().push(
                    CellView::Num(c@),
                ),
    {
        let len = self.stack.len();
        if len < 2 {
            return Err(DCError::StackEmpty);
        }
        proof {
            assert(old(self)@[len - 1] == self.stack@[len - 1]@);
            assert(old(self)@[len - 2] == self.stack@[len - 2]@);
        }
        if !self.stack[len - 1].is_num() || !self.stack[len - 2].is_num() {
            return Err(DCError::NonNumericValue);
        }
        let rhs = self.stack.pop().unwrap();
        let lhs = self.stack.pop().unwrap();
        match (lhs, rhs) {
            (MemoryCell::Num(a), MemoryCell::Num(b)) => {
                let c = f(&a, &b);
                self.stack.push(MemoryCell::Num(c));
                proof {
                    assert(self@ =~= old(self)@.drop_last().drop_last().push(CellView::Num(c@)));
                }
                Ok(())
            },
            _ => Err(DCError::NonNumericValue),
        }
    }

    /// Replaces the top number by what `f` computes from it; it fails, and leaves the stack
    /// as it is, when the stack is empty or the top value is a string.
    pub fn apply_tos_num<F>(&mut self, f: F) -> (r: Result<(), DCError>)
        where
            F: Fn(&Decimal) -> Decimal,
        requires
            forall|n: &Decimal| f.requires((n,)),
        ensures
            old(self)@.len() == 0 ==> r == Err::<(), DCError>(DCError::StackEmpty) && final(self)@ == old(self)@,
            old(self)@.len() > 0 && old(self)@.last() is Str ==> r == Err::<(), DCError>(DCError::NonNumericValue) && final(self)@ == old(self)@,
            old(self)@.len() > 0 && old(self)@.last() is Num ==> r is Ok && exists|n: Decimal, m: Decimal|
                n@ == old(self)@.last()->Num_0 && #[trigger] f.ensures((&n,), m) && final(self)@
                    == old(self)@.drop_last().push(CellView::Num(m@)),
    {
        let len = self.stack.len();
        if len == 0 {
            return Err(DCError::StackEmpty);
        }
        proof {
            assert(old(self)@[len - 1] == self.stack@[len - 1]@);
        }
        let applied = self.stack[len - 1].apply_num(f);
        match applied {
            Ok(c) => {
                let _ = self.stack.pop();
                self.stack.push(c);
                proof {
                    assert(self@ =~= old(self)@.drop_last().push(c@));
                }
                Ok(())
            },
            Err(e) => Err(e),
        }
    }

    /// The top value, to change in place.
    pub fn peek_mut(&mut self) -> (r: Result<&mut MemoryCell, DCError>)
        ensures
            old(self)@.len() == 0 ==> r is Err && r->Err_0 == DCError::StackEmpty && final(self)@ == old(self)@,
            old(self)@.len() > 0 ==> r is Ok && (*r->Ok_0)@ == old(self)@.last() && final(self)@
                == old(self)@.drop_last().push((*final(r->Ok_0))@),
    {
        let len = self.stack.len();
        if len > 0 {
            let top = &mut self.stack[len - 1];
            proof {
                assert(cells_view(old(self).stack@.update(len - 1, *final(top))) =~= old(self)@.drop_last().push(
                    (*final(top))@,
                ));
            }
            Ok(top)
        } else {
            Err(DCError::StackEmpty)
        }
    }

    /// Replaces the top number by what `f` computes from it; it fails, and leaves the stack
    /// as it is, when the stack is empty, the top value is a string or `f` gives nothing.
    pub fn apply_tos_num_opt<F>(&mut self, f: F) -> (r: Result<(), DCError>)
        where
            F: Fn(&Decimal) -> Option<Decimal>,
        requires
            forall|n: &Decimal| f.requires((n,)),
        ensures
            old(self)@.len() == 0 ==> r == Err::<(), DCError>(DCError::StackEmpty) && final(self)@ == old(self)@,
            old(self)@.len() > 0 && old(self)@.last() is Str ==> r == Err::<(), DCError>(DCError::NonNumericValue) && final(self)@ == old(self)@,
            old(self)@.len() > 0 && old(self)@.last() is Num ==> match r {
                Ok(()) => exists|n: Decimal, m: Decimal|
                    n@ == old(self)@.last()->Num_0 && #[trigger] f.ensures((&n,), Some(m))
                        && final(self)@ == old(self)@.drop_last().push(CellView::Num(m@)),
                Err(e) => e == DCError::InternalConversionError && final(self)@ == old(self)@,
            },
    {
        let len = self.stack.len();
        if len == 0 {
            return Err(DCError::StackEmpty);
        }
        proof {
            assert(old(self)@[len - 1] == self.stack@[len - 1]@);
        }
        let applied = self.stack[len - 1].apply_num_opt(f);
        match applied {
            Ok(c) => {
                let _ = self.stack.pop();
                self.stack.push(c);
                proof {
                    assert(self@ =~= old(self)@.drop_last().push(c@));
                }
                Ok(())
            },
            Err(e) => Err(e),
        }
    }
}

/// A literal built from digits and a dot reads as the number of its parts.
proof fn lemma_literal_of_parts(integer: Seq<u8>, fraction: Seq<u8>, v: Seq<u8>)
    requires
        all_ascii_digits(integer),
        all_ascii_digits(fraction),
        integer.len() + fraction.len() > 0,
        v == if fraction.len() > 0 {
            integer + seq![46u8] + fraction
        } else {
            integer
        },
    ensures
        crate::decimal::decimal_literal(v),
        crate::decimal::literal_value(v) == number_value(integer, fraction),
{
    crate::numtext::lemma_find_byte_bounds(v, 0, 46);
    let d = crate::numtext::find_byte(v, 0, 46);
    if fraction.len() > 0 {
        assert(v[integer.len() as int] == 46);
        assert(d <= integer.len());
        if d < integer.len() {
            assert(v[d as int] == integer[d as int]);
            assert(false);
        }
        assert(v.subrange(0, d as int) =~= integer);
        assert(v.subrange(d as int + 1, v.len() as int) =~= fraction);
        assert(crate::decimal::literal_digits(v) =~= integer + fraction);
        assert(v[0] != 45) by {
            if integer.len() > 0 {
                assert(v[0] == integer[0]);
            }
        }
    } else {
        if d < v.len() {
            assert(v[d as int] == integer[d as int]);
            assert(false);
        }
        assert(v.subrange(0, d as int) =~= integer);
        assert(integer + fraction =~= integer);
        assert(v[0] == integer[0]);
    }
}

} // verus!
