//! The `dc` machine: it runs program text on a stack of numbers and strings, and writes what
//! it prints, and the messages of what went wrong, to two buffers.
use vstd::prelude::*;
use vstd::string::StringSliceAdditionalSpecFns;
use vstd::utf8::encode_utf8;
use crate::dcstack::{
    cell_text,
    error_message,
    number_value,
    printable,
    stack_text,
    top_two_numbers,
    CellView,
    DCError,
    DCStack,
    MemoryCell,
};
use crate::decimal::{
    decimal_difference,
    decimal_quotient,
    decimal_remainder,
    decimal_sum,
    quotient_scale_fits,
    remainder_scale_fits,
    rescaled,
    u64_part,
    Decimal,
    DecimalValue,
};
use crate::instructions::{append_bytes, instruction_views, Instruction, InstructionView, Program};
use crate::numtext::all_ascii_digits;
use crate::parse::{error_text, parse, parse_from, ParseOutcome};

verus! {

/// How deep macros may call macros: as deep as a `u64` counts, so that in practice only the
/// machine's own stack bounds the depth; a macro run deeper ends with `RecursionTooDeep`.
pub const MAX_MACRO_DEPTH: u64 = 18446744073709551615;

/// What executing an instruction led to.
#[derive(Clone, Copy, Debug, PartialEq, Eq, Structural)]
pub enum VMState {
    Continue,
    StackError(DCError),
    InvalidInputRadix,
    InvalidOutputRadix,
    InvalidPrecision,
    InvalidCallStackOperation,
    NotImplemented,
    TerminatingReturn,
    TerminatingReturnEnclosing,
    NonTerminatingReturn(u64),
    /// The divisor of a division or a remainder is zero.
    DivisionByZero,
    /// A macro called macros deeper than `MAX_MACRO_DEPTH`.
    RecursionTooDeep,
}

/// The message of a state.
pub open spec fn state_message(s: VMState) -> Seq<char> {
    match s {
        VMState::Continue => "continue"@,
        VMState::InvalidInputRadix => "invalid input radix"@,
        VMState::InvalidOutputRadix => "invalid output radix"@,
        VMState::InvalidPrecision => "invalid precision"@,
        VMState::NotImplemented => "not implemented"@,
        VMState::InvalidCallStackOperation => "Q command requires a number >= 1"@,
        VMState::TerminatingReturn => "terminating return"@,
        VMState::TerminatingReturnEnclosing => "terminating return enclosing"@,
        VMState::NonTerminatingReturn(..) => "non terminating return"@,
        VMState::StackError(e) => error_message(e),
        VMState::DivisionByZero => "divide by zero"@,
        VMState::RecursionTooDeep => "recursion too deep"@,
    }
}

impl VMState {
    /// The message of the state, as its `Display` writes it.
    pub fn message(&self) -> (r: &'static str)
        ensures
            r@ == state_message(*self),
    {
        match self {
            VMState::Continue => "continue",
            VMState::InvalidInputRadix => "invalid input radix",
            VMState::InvalidOutputRadix => "invalid output radix",
            VMState::InvalidPrecision => "invalid precision",
            VMState::NotImplemented => "not implemented",
            VMState::InvalidCallStackOperation => "Q command requires a number >= 1",
            VMState::TerminatingReturn => "terminating return",
            VMState::TerminatingReturnEnclosing => "terminating return enclosing",
            VMState::NonTerminatingReturn(..) => "non terminating return",
            VMState::StackError(e) => e.message(),
            VMState::DivisionByZero => "divide by zero",
            VMState::RecursionTooDeep => "recursion too deep",
        }
    }

    /// How many levels of macros a return leaves.
    pub fn stack_unwind(&self) -> (n: u64)
        ensures
            n == match *self {
                VMState::NonTerminatingReturn(n) => n,
                VMState::TerminatingReturnEnclosing => 1,
                VMState::TerminatingReturn => 2,
                _ => 0,
            },
    {
        match self {
            VMState::NonTerminatingReturn(n) => *n,
            VMState::TerminatingReturnEnclosing => 1,
            VMState::TerminatingReturn => 2,
            _ => 0,
        }
    }

    /// The state lets the program go on, or returns from it.
    pub fn is_ok(&self) -> (b: bool)
        ensures
            b == is_ok_state(*self),
    {
        match self {
            VMState::Continue
            | VMState::NonTerminatingReturn(..)
            | VMState::TerminatingReturnEnclosing
            | VMState::TerminatingReturn => true,
            _ => false,
        }
    }

    /// The state is an error.
    pub fn is_err(&self) -> (b: bool)
        ensures
            b == !is_ok_state(*self),
    {
        !self.is_ok()
    }
}

/// The state lets the program go on, or returns from it.
pub open spec fn is_ok_state(s: VMState) -> bool {
    s is Continue || s is NonTerminatingReturn || s is TerminatingReturnEnclosing || s is TerminatingReturn
}

/// How running a program text ended.
#[derive(Debug, Clone, PartialEq, Eq, Copy, Structural)]
pub enum ReturnState {
    Done,
    TerminatingReturn,
    TerminatingReturnEnclosing,
    NonTerminatingReturn(u64),
}

/// What a return becomes in the macro that called the one that returned.
pub open spec fn next_return(r: ReturnState) -> ReturnState {
    match r {
        ReturnState::Done => ReturnState::Done,
        ReturnState::TerminatingReturn => ReturnState::TerminatingReturnEnclosing,
        ReturnState::TerminatingReturnEnclosing => ReturnState::Done,
        ReturnState::NonTerminatingReturn(n) => if n == 0 {
            ReturnState::Done
        } else {
            ReturnState::NonTerminatingReturn((n - 1) as u64)
        },
    }
}

/// The return that a state asks for; any other state is no return.
pub open spec fn return_of_state(s: VMState) -> ReturnState {
    match s {
        VMState::NonTerminatingReturn(n) => ReturnState::NonTerminatingReturn(n),
        VMState::TerminatingReturn => ReturnState::TerminatingReturn,
        VMState::TerminatingReturnEnclosing => ReturnState::TerminatingReturnEnclosing,
        _ => ReturnState::Done,
    }
}

/// The state that a return is.
pub open spec fn state_of_return(r: ReturnState) -> VMState {
    match r {
        ReturnState::Done => VMState::Continue,
        ReturnState::NonTerminatingReturn(n) => VMState::NonTerminatingReturn(n),
        ReturnState::TerminatingReturn => VMState::TerminatingReturn,
        ReturnState::TerminatingReturnEnclosing => VMState::TerminatingReturnEnclosing,
    }
}

impl ReturnState {
    /// What the return becomes in the macro that called the one that returned.
    pub fn next(&self) -> (r: Self)
        ensures
            r == next_return(*self),
    {
        match self {
            ReturnState::Done => ReturnState::Done,
            ReturnState::TerminatingReturn => ReturnState::TerminatingReturnEnclosing,
            ReturnState::TerminatingReturnEnclosing => ReturnState::Done,
            ReturnState::NonTerminatingReturn(n) => if *n == 0 {
                ReturnState::Done
            } else {
                ReturnState::NonTerminatingReturn(*n - 1)
            },
        }
    }

    /// The return ends the text being run.
    pub fn terminates_exec(&self) -> (b: bool)
        ensures
            b == !(*self is Done),
    {
        match self {
            ReturnState::Done => false,
            _ => true,
        }
    }
}

/// How a return is written, as its `Display` writes it.
pub open spec fn return_text(r: ReturnState) -> Seq<u8> {
    match r {
        ReturnState::Done => "Done".spec_bytes(),
        ReturnState::TerminatingReturn => "TerminatingReturn".spec_bytes(),
        ReturnState::TerminatingReturnEnclosing => "TerminatingReturnEnclosing".spec_bytes(),
        ReturnState::NonTerminatingReturn(n) => "NonTerminatingReturn(".spec_bytes()
            + crate::numtext::nat_text(n as nat) + seq![41u8],
    }
}

impl ReturnState {
    /// The text of the return, as its `Display` writes it.
    pub fn to_text(&self) -> (t: Vec<u8>)
        ensures
            t@ == return_text(*self),
    {
        let mut out: Vec<u8> = Vec::new();
        match self {
            ReturnState::Done => append_bytes(&mut out, "Done".as_bytes()),
            ReturnState::TerminatingReturn => append_bytes(&mut out, "TerminatingReturn".as_bytes()),
            ReturnState::TerminatingReturnEnclosing => append_bytes(
                &mut out,
                "TerminatingReturnEnclosing".as_bytes(),
            ),
            ReturnState::NonTerminatingReturn(n) => {
                append_bytes(&mut out, "NonTerminatingReturn(".as_bytes());
                let digits = crate::numtext::u64_text(*n);
                append_bytes(&mut out, digits.as_slice());
                out.push(41u8);
            },
        }
        assert(out@ =~= return_text(*self));
        out
    }
}

impl Default for ReturnState {
    fn default() -> (r: Self)
        ensures
            r == ReturnState::Done,
    {
        ReturnState::Done
    }
}

impl From<VMState> for ReturnState {
    fn from(vm_state: VMState) -> (r: ReturnState) {
        match vm_state {
            VMState::NonTerminatingReturn(n) => ReturnState::NonTerminatingReturn(n),
            VMState::TerminatingReturn => ReturnState::TerminatingReturn,
            VMState::TerminatingReturnEnclosing => ReturnState::TerminatingReturnEnclosing,
            _ => ReturnState::Done,
        }
    }
}

impl vstd::std_specs::convert::FromSpecImpl<VMState> for ReturnState {
    open spec fn obeys_from_spec() -> bool {
        true
    }

    open spec fn from_spec(vm_state: VMState) -> ReturnState {
        return_of_state(vm_state)
    }
}

impl From<DCError> for VMState {
    fn from(error: DCError) -> (r: VMState) {
        VMState::StackError(error)
    }
}

impl vstd::std_specs::convert::FromSpecImpl<DCError> for VMState {
    open spec fn obeys_from_spec() -> bool {
        true
    }

    open spec fn from_spec(error: DCError) -> VMState {
        VMState::StackError(error)
    }
}

/// The state that the outcome of a stack operation leads to.
pub open spec fn state_of_outcome(result: Result<(), DCError>) -> VMState {
    match result {
        Ok(()) => VMState::Continue,
        Err(e) => VMState::StackError(e),
    }
}

impl From<Result<(), DCError>> for VMState {
    fn from(result: Result<(), DCError>) -> (r: VMState) {
        match result {
            Ok(()) => VMState::Continue,
            Err(stack_error) => VMState::StackError(stack_error),
        }
    }
}

impl vstd::std_specs::convert::FromSpecImpl<Result<(), DCError>> for VMState {
    open spec fn obeys_from_spec() -> bool {
        true
    }

    open spec fn from_spec(result: Result<(), DCError>) -> VMState {
        state_of_outcome(result)
    }
}

/// The state that a state reached or a stack error leads to.
pub open spec fn state_of_result(result: Result<VMState, DCError>) -> VMState {
    match result {
        Ok(state) => state,
        Err(e) => VMState::StackError(e),
    }
}

impl From<Result<VMState, DCError>> for VMState {
    fn from(result: Result<VMState, DCError>) -> (r: VMState) {
        match result {
            Ok(state) => state,
            Err(stack_error) => VMState::StackError(stack_error),
        }
    }
}

impl vstd::std_specs::convert::FromSpecImpl<Result<VMState, DCError>> for VMState {
    open spec fn obeys_from_spec() -> bool {
        true
    }

    open spec fn from_spec(result: Result<VMState, DCError>) -> VMState {
        state_of_result(result)
    }
}

impl From<ReturnState> for VMState {
    fn from(return_state: ReturnState) -> (r: VMState) {
        match return_state {
            ReturnState::Done => VMState::Continue,
            ReturnState::NonTerminatingReturn(n) => VMState::NonTerminatingReturn(n),
            ReturnState::TerminatingReturn => VMState::TerminatingReturn,
            ReturnState::TerminatingReturnEnclosing => VMState::TerminatingReturnEnclosing,
        }
    }
}

impl vstd::std_specs::convert::FromSpecImpl<ReturnState> for VMState {
    open spec fn obeys_from_spec() -> bool {
        true
    }

    open spec fn from_spec(return_state: ReturnState) -> VMState {
        state_of_return(return_state)
    }
}

/// The state of a machine, as a value: the stack, the radixes and the precision, what was
/// printed, the messages of what went wrong, and how many square roots were asked for.
pub struct VMModel {
    pub stack: Seq<CellView>,
    pub input_radix: u32,
    pub output_radix: u32,
    pub precision: u64,
    pub output: Seq<u8>,
    pub errors: Seq<u8>,
    pub roots_asked: nat,
}

/// The state with another stack.
pub open spec fn with_stack(s: VMModel, stack: Seq<CellView>) -> VMModel {
    VMModel { stack: stack, ..s }
}

/// The precision as the scale that a division is written at: the bits of the precision read
/// as an `i64`.
pub open spec fn precision_scale(p: u64) -> int {
    if p <= i64::MAX {
        p as int
    } else {
        p - 18446744073709551616
    }
}

/// The integer fits in an `i64`.
pub open spec fn fits_i64(x: int) -> bool {
    i64::MIN <= x <= i64::MAX
}

/// The line that reports a state that is neither a success nor a return.
pub open spec fn error_line(st: VMState) -> Seq<u8> {
    "dc: ".spec_bytes() + encode_utf8(state_message(st)) + seq![10u8]
}

/// The state after reporting `st`.
pub open spec fn report(s: VMModel, st: VMState) -> VMModel {
    VMModel { errors: s.errors + error_line(st), ..s }
}

/// The number that a number instruction pushes. Only radix ten is read; the digits must be
/// decimal, and there must be at least one.
pub open spec fn number_step(s: VMModel, integer: Seq<u8>, fraction: Seq<u8>) -> (VMModel, VMState) {
    if s.input_radix != 10 {
        (s, VMState::NotImplemented)
    } else if !all_ascii_digits(integer) || !all_ascii_digits(fraction) || integer.len()
        + fraction.len() == 0 || integer.len() + fraction.len() + 1 >= i64::MAX {
        (s, VMState::StackError(DCError::NumParseError))
    } else {
        (with_stack(s, s.stack.push(CellView::Num(number_value(integer, fraction)))), VMState::Continue)
    }
}

/// An arithmetic instruction on the two top numbers: `+`, `-`, `*`, `/` or `%`.
pub open spec fn binary_step(s: VMModel, c: u8) -> (VMModel, VMState) {
    if s.stack.len() < 2 {
        (s, VMState::StackError(DCError::StackEmpty))
    } else if !top_two_numbers(s.stack) {
        (s, VMState::StackError(DCError::NonNumericValue))
    } else {
        let a = s.stack[s.stack.len() - 2]->Num_0;
        let b = s.stack.last()->Num_0;
        let rest = s.stack.drop_last().drop_last();
        if c == 43 {
            (with_stack(s, rest.push(CellView::Num(decimal_sum(a, b)))), VMState::Continue)
        } else if c == 45 {
            (with_stack(s, rest.push(CellView::Num(decimal_difference(a, b)))), VMState::Continue)
        } else if c == 42 {
            if !fits_i64(a.scale + b.scale) {
                (s, VMState::StackError(DCError::InternalConversionError))
            } else {
                (
                    with_stack(s, rest.push(CellView::Num(crate::decimal::decimal_multiplied(a, b)))),
                    VMState::Continue,
                )
            }
        } else if b.mantissa == 0 {
            (s, VMState::DivisionByZero)
        } else if c == 47 && !quotient_scale_fits(a, b) {
            (s, VMState::StackError(DCError::InternalConversionError))
        } else if c == 37 && !remainder_scale_fits(a, b) {
            (s, VMState::StackError(DCError::InternalConversionError))
        } else if c == 47 {
            let q = decimal_quotient(a, b);
            let k = precision_scale(s.precision);
            if !fits_i64(k - q.scale) {
                (s, VMState::StackError(DCError::InternalConversionError))
            } else {
                (with_stack(s, rest.push(CellView::Num(rescaled(q, k)))), VMState::Continue)
            }
        } else {
            (with_stack(s, rest.push(CellView::Num(decimal_remainder(a, b)))), VMState::Continue)
        }
    }
}

/// Printing the top value, and popping it if `pop`.
pub open spec fn print_step(s: VMModel, pop: bool) -> (VMModel, VMState) {
    if s.stack.len() == 0 {
        (s, VMState::StackError(DCError::StackEmpty))
    } else if !printable(s.stack.last(), s.output_radix) {
        (s, VMState::NotImplemented)
    } else {
        let printed = VMModel {
            output: s.output + cell_text(s.stack.last(), s.output_radix) + seq![10u8],
            ..s
        };
        if pop {
            (with_stack(printed, s.stack.drop_last()), VMState::Continue)
        } else {
            (printed, VMState::Continue)
        }
    }
}

/// The radix that a number sets: an integer from 2 to 16, written at scale zero.
pub open spec fn radix_value(n: DecimalValue) -> Option<u32> {
    if n.scale == 0 && 2 <= n.mantissa <= 16 {
        Some(n.mantissa as u32)
    } else {
        None
    }
}

/// The precision that a number sets: its integer part, at least 2.
pub open spec fn precision_value(n: DecimalValue) -> Option<u64> {
    if n.scale == i64::MIN {
        None
    } else {
        match u64_part(n) {
            Some(v) => if v >= 2 {
                Some(v)
            } else {
                None
            },
            None => None,
        }
    }
}

/// The number of levels that `Q` returns from: the integer part of the number.
pub open spec fn levels_value(n: DecimalValue) -> Option<u64> {
    if n.scale == i64::MIN {
        None
    } else {
        u64_part(n)
    }
}

/// An instruction that pops a number and uses it: `i`, `o`, `k` or `Q`.
pub open spec fn pop_number_step(s: VMModel, c: u8) -> (VMModel, VMState) {
    if s.stack.len() == 0 {
        (s, VMState::StackError(DCError::StackEmpty))
    } else if s.stack.last() is Str {
        (s, VMState::StackError(DCError::NonNumericValue))
    } else {
        let n = s.stack.last()->Num_0;
        let popped = with_stack(s, s.stack.drop_last());
        if c == 105 {
            match radix_value(n) {
                Some(r) => (VMModel { input_radix: r, ..popped }, VMState::Continue),
                None => (popped, VMState::InvalidInputRadix),
            }
        } else if c == 111 {
            match radix_value(n) {
                Some(r) => (VMModel { output_radix: r, ..popped }, VMState::Continue),
                None => (popped, VMState::InvalidOutputRadix),
            }
        } else if c == 107 {
            match precision_value(n) {
                Some(p) => (VMModel { precision: p, ..popped }, VMState::Continue),
                None => (popped, VMState::InvalidPrecision),
            }
        } else {
            match levels_value(n) {
                Some(l) => (popped, VMState::NonTerminatingReturn(l)),
                None => (popped, VMState::InvalidCallStackOperation),
            }
        }
    }
}

/// The number `n` at scale zero, as a value.
pub open spec fn integer_cell(n: int) -> CellView {
    CellView::Num(DecimalValue { mantissa: n, scale: 0 })
}

/// Every value on the stack can be printed in `radix`.
pub open spec fn all_printable(stack: Seq<CellView>, radix: u32) -> bool {
    forall|i: int| 0 <= i < stack.len() ==> printable(#[trigger] stack[i], radix)
}

/// An instruction without operands other than `x` and `v`.
pub open spec fn simple_step(s: VMModel, c: u8) -> (VMModel, VMState) {
    if c == 0 {
        (s, VMState::Continue)
    } else if c == 112 {
        print_step(s, false)
    } else if c == 110 {
        print_step(s, true)
    } else if c == 102 {
        if all_printable(s.stack, s.output_radix) {
            (VMModel { output: s.output + stack_text(s.stack, s.output_radix), ..s }, VMState::Continue)
        } else {
            (s, VMState::NotImplemented)
        }
    } else if c == 43 || c == 45 || c == 42 || c == 47 || c == 37 {
        binary_step(s, c)
    } else if c == 99 {
        (with_stack(s, Seq::empty()), VMState::Continue)
    } else if c == 100 {
        if s.stack.len() == 0 {
            (s, VMState::StackError(DCError::StackEmpty))
        } else {
            (with_stack(s, s.stack.push(s.stack.last())), VMState::Continue)
        }
    } else if c == 114 {
        if s.stack.len() < 2 {
            (s, VMState::StackError(DCError::StackEmpty))
        } else {
            (
                with_stack(s, crate::dcstack::swapped(s.stack)),
                VMState::Continue,
            )
        }
    } else if c == 105 || c == 111 || c == 107 || c == 81 {
        pop_number_step(s, c)
    } else if c == 73 {
        (with_stack(s, s.stack.push(integer_cell(s.input_radix as int))), VMState::Continue)
    } else if c == 79 {
        (with_stack(s, s.stack.push(integer_cell(s.output_radix as int))), VMState::Continue)
    } else if c == 75 {
        (with_stack(s, s.stack.push(integer_cell(s.precision as int))), VMState::Continue)
    } else if c == 113 {
        (s, VMState::TerminatingReturn)
    } else if c == 122 {
        (with_stack(s, s.stack.push(integer_cell(s.stack.len() as int))), VMState::Continue)
    } else {
        (s, VMState::NotImplemented)
    }
}

/// `v`: the square root of the top number, as the `k`-th answer gives it, written at the
/// precision.
pub open spec fn sqrt_step(roots: spec_fn(nat) -> Option<DecimalValue>, s: VMModel) -> (VMModel, VMState) {
    if s.stack.len() == 0 {
        (s, VMState::StackError(DCError::StackEmpty))
    } else if s.stack.last() is Str {
        (s, VMState::StackError(DCError::NonNumericValue))
    } else {
        let asked = VMModel { roots_asked: s.roots_asked + 1, ..s };
        match roots(s.roots_asked) {
            None => (asked, VMState::StackError(DCError::InternalConversionError)),
            Some(r) => {
                let k = precision_scale(s.precision);
                if !fits_i64(k - r.scale) {
                    (asked, VMState::StackError(DCError::InternalConversionError))
                } else {
                    (with_stack(asked, s.stack.drop_last().push(CellView::Num(rescaled(r, k)))), VMState::Continue)
                }
            },
        }
    }
}

/// Executing one instruction at the macro depth `level`, with `roots` answering the square
/// roots asked for.
pub open spec fn step(
    roots: spec_fn(nat) -> Option<DecimalValue>,
    level: nat,
    s: VMModel,
    i: InstructionView,
) -> (VMModel, VMState)
    decreases MAX_MACRO_DEPTH - level, 0nat, 0nat,
{
    match i {
        InstructionView::Op(c) => if c == 120 {
            if s.stack.len() == 0 {
                (s, VMState::StackError(DCError::StackEmpty))
            } else if s.stack.last() is Num {
                (s, VMState::StackError(DCError::NonStringValue))
            } else {
                let popped = with_stack(s, s.stack.drop_last());
                if level >= MAX_MACRO_DEPTH {
                    (popped, VMState::RecursionTooDeep)
                } else {
                    let (done, r) = run(roots, level + 1, popped, s.stack.last()->Str_0);
                    (done, state_of_return(next_return(r)))
                }
            }
        } else if c == 118 {
            sqrt_step(roots, s)
        } else {
            simple_step(s, c)
        },
        InstructionView::Num(integer, fraction) => number_step(s, integer, fraction),
        InstructionView::Str(text) => (with_stack(s, s.stack.push(CellView::Str(text))), VMState::Continue),
        InstructionView::Register(..) => (s, VMState::NotImplemented),
        InstructionView::System(..) => (s, VMState::NotImplemented),
        InstructionView::Comment(..) => (s, VMState::Continue),
    }
}

/// Executing instructions in order: an error is reported and the next instruction follows;
/// a return ends the sequence.
pub open spec fn eval_list(
    roots: spec_fn(nat) -> Option<DecimalValue>,
    level: nat,
    s: VMModel,
    l: Seq<InstructionView>,
) -> (VMModel, ReturnState)
    decreases MAX_MACRO_DEPTH - level, 1nat, l.len(),
{
    if l.len() == 0 {
        (s, ReturnState::Done)
    } else {
        let (s1, st) = step(roots, level, s, l[0]);
        if st is Continue {
            eval_list(roots, level, s1, l.drop_first())
        } else if st is TerminatingReturn || st is TerminatingReturnEnclosing || st is NonTerminatingReturn {
            (s1, return_of_state(st))
        } else {
            eval_list(roots, level, report(s1, st), l.drop_first())
        }
    }
}

/// Running a program text: its instructions; when it cannot be read to the end, those before
/// the point where reading stopped, then the message of the parse error and the rest of the
/// text, unless a return ended the first part.
pub open spec fn run(
    roots: spec_fn(nat) -> Option<DecimalValue>,
    level: nat,
    s: VMModel,
    text: Seq<u8>,
) -> (VMModel, ReturnState)
    decreases MAX_MACRO_DEPTH - level, 2nat, text.len(),
{
    match parse_from(text, 0) {
        ParseOutcome::Complete(l) => eval_list(roots, level, s, l),
        ParseOutcome::Stopped { parsed, position, error, resume } => {
            let (s1, r) = eval_list(roots, level, s, parsed);
            if !(r is Done) || !(0 < resume <= text.len()) {
                (s1, r)
            } else {
                let s2 = VMModel {
                    errors: s1.errors + "dc: ".spec_bytes() + error_text(position, error) + seq![10u8],
                    ..s1
                };
                run(roots, level, s2, text.subrange(resume as int, text.len() as int))
            }
        },
    }
}

/// `roots` gives the answers that were had.
pub open spec fn agrees(roots: spec_fn(nat) -> Option<DecimalValue>, answers: Seq<Option<DecimalValue>>) -> bool {
    forall|k: nat| k < answers.len() ==> #[trigger] roots(k) == answers[k as int]
}

/// Where reading stops, it may go on after at least one byte.
pub proof fn lemma_resume_advances(s: Seq<u8>, p: nat)
    requires
        p <= s.len(),
    ensures
        parse_from(s, p) matches ParseOutcome::Stopped { resume, .. } ==> p < resume <= s.len(),
    decreases s.len() - p,
{
    if p < s.len() {
        let c = s[p as int];
        if c == 32 || c == 10 {
            lemma_resume_advances(s, p + 1);
        } else if crate::instructions::is_simple_command(c) {
            lemma_resume_advances(s, p + 1);
        } else if crate::parse::is_decimal_digit(c) || c == 46 {
            crate::parse::lemma_number_end(s, p);
            lemma_resume_advances(s, crate::parse::number_end(s, p));
        } else if crate::parse::register_command(c) is Some {
            if p + 1 < s.len() {
                lemma_resume_advances(s, p + 2);
            }
        } else if c == 33 {
            if p + 1 < s.len() {
                if crate::parse::negated_register_command(s[p as int + 1]) is Some {
                    if p + 2 < s.len() {
                        lemma_resume_advances(s, p + 3);
                    }
                } else {
                    crate::numtext::lemma_find_byte_bounds(s, p + 2, 10);
                    let e = crate::numtext::find_byte(s, p + 2, 10);
                    if e < s.len() {
                        lemma_resume_advances(s, e + 1);
                    }
                }
            }
        } else if c == 91 {
            if p + 1 < s.len() {
                if s[p as int + 1] == 93 {
                    lemma_resume_advances(s, p + 2);
                } else {
                    crate::numtext::lemma_find_byte_bounds(s, p + 2, 93);
                    let e = crate::numtext::find_byte(s, p + 2, 93);
                    if e < s.len() {
                        lemma_resume_advances(s, e + 1);
                    }
                }
            }
        } else if c == 35 {
            if p + 1 < s.len() {
                if s[p as int + 1] == 10 {
                    lemma_resume_advances(s, p + 2);
                } else {
                    crate::numtext::lemma_find_byte_bounds(s, p + 2, 10);
                    let e = crate::numtext::find_byte(s, p + 2, 10);
                    if e < s.len() {
                        lemma_resume_advances(s, e + 1);
                    }
                }
            }
        }
    }
}

/// Where the square roots come from: their computation is left to the user of the machine.
pub trait SquareRoot {
    /// The square root of `n`, or nothing when it cannot be had.
    fn square_root(&self, n: &Decimal) -> Option<Decimal>;
}

/// No square roots: every one asked for is missing, so on a machine built with it `v` reports
/// an internal conversion error. The square roots themselves are floating point, which the
/// command line supplies.
#[derive(Clone, Copy, Debug, Default)]
pub struct NoSquareRoot;

impl SquareRoot for NoSquareRoot {
    fn square_root(&self, n: &Decimal) -> (r: Option<Decimal>)
        ensures
            r is None,
    {
        None
    }
}

/// `b` begins with `a`.
pub open spec fn extends(a: Seq<Option<DecimalValue>>, b: Seq<Option<DecimalValue>>) -> bool {
    a.len() <= b.len() && b.subrange(0, a.len() as int) == a
}

/// A machine: its stack, the radixes it reads and prints numbers in, the precision of
/// divisions and square roots, what it printed, the messages of what went wrong, how deep in
/// macros it is, and where its square roots come from.
pub struct VM<S> {
    stack: DCStack,
    input_radix: u32,
    output_radix: u32,
    precision: u64,
    sink: Vec<u8>,
    error_sink: Vec<u8>,
    macro_level: u64,
    square_root: S,
    roots: Ghost<Seq<Option<DecimalValue>>>,
}

impl<S> View for VM<S> {
    type V = VMModel;

    closed spec fn view(&self) -> VMModel {
        VMModel {
            stack: self.stack@,
            input_radix: self.input_radix,
            output_radix: self.output_radix,
            precision: self.precision,
            output: self.sink@,
            errors: self.error_sink@,
            roots_asked: self.roots@.len(),
        }
    }
}

impl<S> VM<S> {
    /// How deep in macros the machine is.
    pub closed spec fn level(&self) -> nat {
        self.macro_level as nat
    }

    /// The answers to the square roots asked for so far, in order.
    pub closed spec fn answers(&self) -> Seq<Option<DecimalValue>> {
        self.roots@
    }
}

/// A machine that has no square roots: `v` on it reports an internal conversion error.
impl Default for VM<NoSquareRoot> {
    fn default() -> (r: Self)
        ensures
            r@ == (VMModel {
                stack: Seq::empty(),
                input_radix: 10,
                output_radix: 10,
                precision: 0,
                output: Seq::empty(),
                errors: Seq::empty(),
                roots_asked: 0,
            }),
            r.level() == 0,
            r.answers() == Seq::<Option<DecimalValue>>::empty(),
    {
        VM::new(NoSquareRoot)
    }
}

/// Appends a report of `st` to `errors`.
fn write_error_line(errors: &mut Vec<u8>, st: VMState)
    ensures
        final(errors)@ == old(errors)@ + error_line(st),
{
    append_bytes(errors, "dc: ".as_bytes());
    append_bytes(errors, st.message().as_bytes());
    errors.push(10u8);
    assert(errors@ =~= old(errors)@ + error_line(st));
}

/// The digits are all decimal.
fn all_digits(t: &[u8]) -> (b: bool)
    ensures
        b == all_ascii_digits(t@),
{
    let mut i: usize = 0;
    while i < t.len()
        invariant
            i <= t@.len(),
            forall|k: int| 0 <= k < i ==> 48 <= #[trigger] t@[k] <= 57,
        decreases t@.len() - i,
    {
        if t[i] < 48u8 || t[i] > 57u8 {
            return false;
        }
        i = i + 1;
    }
    true
}

/// The sum of two numbers.
fn sum_of(a: &Decimal, b: &Decimal) -> (r: Decimal)
    ensures
        r@ == decimal_sum(a@, b@),
{
    crate::decimal::add_decimals(a, b)
}

/// The difference of two numbers.
fn difference_of(a: &Decimal, b: &Decimal) -> (r: Decimal)
    ensures
        r@ == decimal_difference(a@, b@),
{
    crate::decimal::subtract_decimals(a, b)
}

/// The product of two numbers.
fn product_of(a: &Decimal, b: &Decimal) -> (r: Decimal)
    requires
        fits_i64(a@.scale + b@.scale),
    ensures
        r@ == crate::decimal::decimal_multiplied(a@, b@),
{
    crate::decimal::multiply_decimals(a, b)
}

/// The remainder of two numbers.
fn remainder_of(a: &Decimal, b: &Decimal) -> (r: Decimal)
    requires
        b@.mantissa != 0,
        remainder_scale_fits(a@, b@),
    ensures
        r@ == decimal_remainder(a@, b@),
{
    crate::decimal::remainder_decimals(a, b)
}

/// `x - y` fits in an `i64`.
fn difference_fits(x: i64, y: i64) -> (b: bool)
    ensures
        b == fits_i64(x - y),
{
    let d: i128 = x as i128 - y as i128;
    -9223372036854775808i128 <= d && d <= 9223372036854775807i128
}

/// `bigdecimal` can divide `a` by `b`.
fn quotient_fits(a: &Decimal, b: &Decimal) -> (r: bool)
    ensures
        r == quotient_scale_fits(a@, b@),
{
    if a.is_zero() {
        return true;
    }
    let d: i128 = a.scale() as i128 - b.scale() as i128;
    let digits: i128 = b.mantissa_text().len() as i128;
    -9223372036854775808i128 <= d && d + digits + 100 <= 9223372036854775807i128
}

/// `x + y` fits in an `i64`.
fn sum_fits(x: i64, y: i64) -> (b: bool)
    ensures
        b == fits_i64(x + y),
{
    let d: i128 = x as i128 + y as i128;
    -9223372036854775808i128 <= d && d <= 9223372036854775807i128
}

impl<S: SquareRoot> VM<S> {
    /// A machine with an empty stack, reading and printing in radix ten, at precision zero.
    pub fn new(square_root: S) -> (r: VM<S>)
        ensures
            r@ == (VMModel {
                stack: Seq::empty(),
                input_radix: 10,
                output_radix: 10,
                precision: 0,
                output: Seq::empty(),
                errors: Seq::empty(),
                roots_asked: 0,
            }),
            r.level() == 0,
            r.answers() == Seq::<Option<DecimalValue>>::empty(),
    {
        let r = VM {
            stack: DCStack::new(),
            input_radix: 10,
            output_radix: 10,
            precision: 0,
            sink: Vec::new(),
            error_sink: Vec::new(),
            macro_level: 0,
            square_root,
            roots: Ghost(Seq::empty()),
        };
        assert(r.sink@ =~= Seq::<u8>::empty());
        assert(r.error_sink@ =~= Seq::<u8>::empty());
        r
    }

    /// What the machine printed, and the messages of what went wrong.
    pub fn sinks(self) -> (r: (Vec<u8>, Vec<u8>))
        ensures
            r.0@ == self@.output,
            r.1@ == self@.errors,
    {
        (self.sink, self.error_sink)
    }

    /// The precision as the scale that a division is written at.
    fn precision_i64(&self) -> (k: i64)
        ensures
            k == precision_scale(self.precision),
    {
        if self.precision <= 9223372036854775807u64 {
            self.precision as i64
        } else {
            let over: u64 = self.precision - 9223372036854775808u64;
            -9223372036854775807i64 - 1 + over as i64
        }
    }

    /// Sets the input radix from a number: an integer from 2 to 16, at scale zero.
    pub fn set_input_radix(&mut self, radix: Decimal) -> (r: VMState)
        ensures
            final(self).level() == old(self).level(),
            final(self).answers() == old(self).answers(),
            (final(self)@, r) == match radix_value(radix@) {
                Some(v) => (VMModel { input_radix: v, ..old(self)@ }, VMState::Continue),
                None => (old(self)@, VMState::InvalidInputRadix),
            },
    {
        if radix.scale() != 0 {
            return VMState::InvalidInputRadix;
        }
        match crate::decimal::mantissa_to_u32(&radix) {
            Some(n) => {
                if n < 2 || n > 16 {
                    VMState::InvalidInputRadix
                } else {
                    self.input_radix = n;
                    VMState::Continue
                }
            },
            None => VMState::InvalidInputRadix,
        }
    }

    /// Sets the output radix from a number: an integer from 2 to 16, at scale zero.
    pub fn set_output_radix(&mut self, radix: Decimal) -> (r: VMState)
        ensures
            final(self).level() == old(self).level(),
            final(self).answers() == old(self).answers(),
            (final(self)@, r) == match radix_value(radix@) {
                Some(v) => (VMModel { output_radix: v, ..old(self)@ }, VMState::Continue),
                None => (old(self)@, VMState::InvalidOutputRadix),
            },
    {
        if radix.scale() != 0 {
            return VMState::InvalidOutputRadix;
        }
        match crate::decimal::mantissa_to_u32(&radix) {
            Some(n) => {
                if n < 2 || n > 16 {
                    VMState::InvalidOutputRadix
                } else {
                    self.output_radix = n;
                    VMState::Continue
                }
            },
            None => VMState::InvalidOutputRadix,
        }
    }

    /// Sets the precision from a number: its integer part, which must be at least 2.
    pub fn set_precision(&mut self, precision: Decimal) -> (r: VMState)
        ensures
            final(self).level() == old(self).level(),
            final(self).answers() == old(self).answers(),
            (final(self)@, r) == match precision_value(precision@) {
                Some(v) => (VMModel { precision: v, ..old(self)@ }, VMState::Continue),
                None => (old(self)@, VMState::InvalidPrecision),
            },
    {
        if precision.scale() == -9223372036854775807i64 - 1 {
            return VMState::InvalidPrecision;
        }
        if let Some(value) = crate::decimal::decimal_to_u64(&precision) {
            if value >= 2 {
                self.precision = value;
                return VMState::Continue;
            }
        }
        VMState::InvalidPrecision
    }

    /// A number instruction.
    fn number(&mut self, integer: &[u8], fraction: &[u8]) -> (r: VMState)
        ensures
            final(self).level() == old(self).level(),
            final(self).answers() == old(self).answers(),
            (final(self)@, r) == number_step(old(self)@, integer@, fraction@),
    {
        if self.input_radix != 10 {
            return VMState::NotImplemented;
        }
        let total: u128 = integer.len() as u128 + fraction.len() as u128;
        if !all_digits(integer) || !all_digits(fraction) || total == 0 || total + 1
            >= 9223372036854775807u128 {
            return VMState::StackError(DCError::NumParseError);
        }
        match self.stack.push_bytes_as_num(integer, fraction, 10) {
            Ok(()) => VMState::Continue,
            Err(e) => VMState::StackError(e),
        }
    }

    /// Division: the quotient that `bigdecimal` computes, written at the precision.
    fn divide(&mut self) -> (r: VMState)
        ensures
            final(self).level() == old(self).level(),
            final(self).answers() == old(self).answers(),
            (final(self)@, r) == binary_step(old(self)@, 47),
    {
        if self.stack.len() < 2 {
            return VMState::StackError(DCError::StackEmpty);
        }
        let k = self.precision_i64();
        let value = match self.stack.numbers_on_top() {
            None => {
                return VMState::StackError(DCError::NonNumericValue);
            },
            Some((a, b)) => {
                if b.is_zero() {
                    return VMState::DivisionByZero;
                }
                if !quotient_fits(a, b) {
                    return VMState::StackError(DCError::InternalConversionError);
                }
                let q = crate::decimal::divide_decimals(a, b);
                if !difference_fits(k, q.scale()) {
                    return VMState::StackError(DCError::InternalConversionError);
                }
                crate::decimal::rescale_decimal(&q, k)
            },
        };
        self.stack.replace_top_two(MemoryCell::Num(value));
        VMState::Continue
    }

    /// An arithmetic instruction on the two top numbers.
    fn binary(&mut self, c: u8) -> (r: VMState)
        requires
            c == 43 || c == 45 || c == 42 || c == 47 || c == 37,
        ensures
            final(self).level() == old(self).level(),
            final(self).answers() == old(self).answers(),
            (final(self)@, r) == binary_step(old(self)@, c),
    {
        if c == 47 {
            return self.divide();
        }
        match self.stack.numbers_on_top() {
            Some((a, b)) => {
                if c == 42 && !sum_fits(a.scale(), b.scale()) {
                    return VMState::StackError(DCError::InternalConversionError);
                }
                if c == 37 && b.is_zero() {
                    return VMState::DivisionByZero;
                }
                if c == 37 && !difference_fits(b.scale(), a.scale()) {
                    return VMState::StackError(DCError::InternalConversionError);
                }
            },
            None => {},
        }
        let result = if c == 43 {
            self.stack.binary_apply_and_consume_tos(sum_of)
        } else if c == 45 {
            self.stack.binary_apply_and_consume_tos(difference_of)
        } else if c == 42 {
            self.stack.binary_apply_and_consume_tos(product_of)
        } else {
            self.stack.binary_apply_and_consume_tos(remainder_of)
        };
        match result {
            Ok(()) => VMState::Continue,
            Err(e) => VMState::StackError(e),
        }
    }

    /// Printing the top value, and popping it if `pop`.
    fn print(&mut self, pop: bool) -> (r: VMState)
        ensures
            final(self).level() == old(self).level(),
            final(self).answers() == old(self).answers(),
            (final(self)@, r) == print_step(old(self)@, pop),
    {
        let radix = self.output_radix;
        match self.stack.peek() {
            Err(e) => {
                return VMState::StackError(e);
            },
            Ok(c) => {
                if !crate::dcstack::cell_printable(c, radix) {
                    return VMState::NotImplemented;
                }
                let text = c.to_str_radix(radix);
                append_bytes(&mut self.sink, text.as_slice());
                self.sink.push(10u8);
            },
        }
        if pop {
            let _ = self.stack.pop();
        }
        proof {
            assert(self.sink@ =~= old(self).sink@ + cell_text(old(self)@.stack.last(), radix) + seq![10u8]);
        }
        VMState::Continue
    }

    /// Printing the whole stack, from the top down.
    fn print_stack(&mut self) -> (r: VMState)
        ensures
            final(self).level() == old(self).level(),
            final(self).answers() == old(self).answers(),
            (final(self)@, r) == simple_step(old(self)@, 102),
    {
        let radix = self.output_radix;
        if !self.stack.all_printable(radix) {
            return VMState::NotImplemented;
        }
        self.stack.write_to(&mut self.sink, radix);
        VMState::Continue
    }

    /// An instruction that pops a number and uses it: `i`, `o`, `k` or `Q`.
    fn pop_number(&mut self, c: u8) -> (r: VMState)
        requires
            c == 105 || c == 111 || c == 107 || c == 81,
        ensures
            final(self).level() == old(self).level(),
            final(self).answers() == old(self).answers(),
            (final(self)@, r) == pop_number_step(old(self)@, c),
    {
        match self.stack.pop_num() {
            Err(e) => VMState::StackError(e),
            Ok(n) => {
                if c == 105 {
                    self.set_input_radix(n)
                } else if c == 111 {
                    self.set_output_radix(n)
                } else if c == 107 {
                    self.set_precision(n)
                } else if n.scale() == -9223372036854775807i64 - 1 {
                    VMState::InvalidCallStackOperation
                } else {
                    match crate::decimal::decimal_to_u64(&n) {
                        Some(levels) => VMState::NonTerminatingReturn(levels),
                        None => VMState::InvalidCallStackOperation,
                    }
                }
            },
        }
    }

    /// The square root of the top number, written at the precision.
    fn square_root_of_top(&mut self) -> (r: VMState)
        ensures
            final(self).level() == old(self).level(),
            extends(old(self).answers(), final(self).answers()),
            forall|roots: spec_fn(nat) -> Option<DecimalValue>|
                agrees(roots, final(self).answers()) ==> #[trigger] sqrt_step(roots, old(self)@) == (
                    final(self)@,
                    r,
                ),
    {
        let n = match self.stack.peek() {
            Err(e) => {
                proof {
                    assert(self.answers().subrange(0, self.answers().len() as int) =~= self.answers());
                }
                return VMState::StackError(e);
            },
            Ok(c) => match c {
                MemoryCell::Num(n) => n.clone(),
                MemoryCell::Str(..) => {
                    proof {
                        assert(self.answers().subrange(0, self.answers().len() as int) =~= self.answers());
                    }
                    return VMState::StackError(DCError::NonNumericValue);
                },
            },
        };
        let answer = self.square_root.square_root(&n);
        self.roots = Ghost(self.roots@.push(crate::decimal::option_value(answer)));
        proof {
            assert(self.answers().subrange(0, old(self).answers().len() as int) =~= old(self).answers());
        }
        match answer {
            None => VMState::StackError(DCError::InternalConversionError),
            Some(root) => {
                let k = self.precision_i64();
                if !difference_fits(k, root.scale()) {
                    return VMState::StackError(DCError::InternalConversionError);
                }
                let value = crate::decimal::rescale_decimal(&root, k);
                self.stack.replace_top(MemoryCell::Num(value));
                VMState::Continue
            },
        }
    }

    /// Executes one instruction.
    fn eval_instruction(&mut self, instruction: &Instruction) -> (r: VMState)
        ensures
            final(self).level() == old(self).level(),
            extends(old(self).answers(), final(self).answers()),
            forall|roots: spec_fn(nat) -> Option<DecimalValue>|
                agrees(roots, final(self).answers()) ==> #[trigger] step(
                    roots,
                    old(self).level(),
                    old(self)@,
                    instruction@,
                ) == (final(self)@, r),
        decreases MAX_MACRO_DEPTH - old(self).level(), 1nat, 0nat,
    {
        proof {
            lemma_extends_refl(self.answers());
        }
        match instruction {
            Instruction::Nop => VMState::Continue,
            Instruction::Num(integer, fraction) => self.number(integer, fraction),
            Instruction::Str(text) => {
                self.stack.push_str(text);
                assert(forall|roots: spec_fn(nat) -> Option<DecimalValue>| agrees(roots, self.answers()) ==> #[trigger] step(roots, old(self).level(), old(self)@, instruction@) == (self@, VMState::Continue));
                VMState::Continue
            },
            Instruction::PrintLN => self.print(false),
            Instruction::PrintPop => self.print(true),
            Instruction::PrettyPrint => VMState::NotImplemented,
            Instruction::PrintStack => self.print_stack(),
            Instruction::Add => self.binary(43),
            Instruction::Sub => self.binary(45),
            Instruction::Mul => self.binary(42),
            Instruction::Div => self.binary(47),
            Instruction::Mod => self.binary(37),
            Instruction::Divmod => VMState::NotImplemented,
            Instruction::Exp => VMState::NotImplemented,
            Instruction::Modexp => VMState::NotImplemented,
            Instruction::Sqrt => self.square_root_of_top(),
            Instruction::Clear => match self.stack.clear() {
                Ok(()) => VMState::Continue,
                Err(e) => VMState::StackError(e),
            },
            Instruction::Dup => match self.stack.dup() {
                Ok(()) => {
                assert(forall|roots: spec_fn(nat) -> Option<DecimalValue>| agrees(roots, self.answers()) ==> #[trigger] step(roots, old(self).level(), old(self)@, instruction@) == (self@, VMState::Continue));
                    VMState::Continue
                },
                Err(e) => VMState::StackError(e),
            },
            Instruction::Swap => match self.stack.swap() {
                Ok(()) => VMState::Continue,
                Err(e) => VMState::StackError(e),
            },
            Instruction::RegisterOperation(..) => VMState::NotImplemented,
            Instruction::SetInputRadix => self.pop_number(105),
            Instruction::GetInputRadix => {
                self.stack.push_num(self.input_radix as u64);
                assert(forall|roots: spec_fn(nat) -> Option<DecimalValue>| agrees(roots, self.answers()) ==> #[trigger] step(roots, old(self).level(), old(self)@, instruction@) == (self@, VMState::Continue));
                VMState::Continue
            },
            Instruction::SetOutputRadix => self.pop_number(111),
            Instruction::GetOutputRadix => {
                self.stack.push_num(self.output_radix as u64);
                VMState::Continue
            },
            Instruction::SetPrecision => self.pop_number(107),
            Instruction::GetPrecision => {
                self.stack.push_num(self.precision);
                VMState::Continue
            },
            Instruction::OpToString => VMState::NotImplemented,
            Instruction::ExecuteTos => match self.stack.pop_str() {
                Ok(bytes) => {
                    if self.macro_level >= MAX_MACRO_DEPTH {
                        VMState::RecursionTooDeep
                    } else {
                        let ghost popped = self@;
                        let ghost text = bytes@;
                        proof {
                            assert(popped == with_stack(old(self)@, old(self)@.stack.drop_last()));
                            assert(text == old(self)@.stack.last()->Str_0);
                        }
                        let r = self.execute_macro(bytes.as_slice());
                        let st = VMState::from(r);
                        proof {
                            assert(st == state_of_return(r));
                            assert forall|roots: spec_fn(nat) -> Option<DecimalValue>|
                                agrees(roots, self.answers()) implies #[trigger] step(
                                    roots,
                                    old(self).level(),
                                    old(self)@,
                                    instruction@,
                                ) == (self@, st) by {
                                let ran = run(roots, old(self).level() + 1, popped, text);
                                assert(self@ == ran.0);
                                assert(r == next_return(ran.1));
                            }
                        }
                        st
                    }
                },
                Err(e) => VMState::StackError(e),
            },
            Instruction::ExecuteInput => VMState::NotImplemented,
            Instruction::ReturnCaller => VMState::TerminatingReturn,
            Instruction::ReturnN => self.pop_number(81),
            Instruction::Digits => VMState::NotImplemented,
            Instruction::FractionDigits => VMState::NotImplemented,
            Instruction::StackDepth => {
                let len = self.stack.len();
                self.stack.push_num(len as u64);
                assert(forall|roots: spec_fn(nat) -> Option<DecimalValue>| agrees(roots, self.answers()) ==> #[trigger] step(roots, old(self).level(), old(self)@, instruction@) == (self@, VMState::Continue));
                VMState::Continue
            },
            Instruction::System(..) => VMState::NotImplemented,
            Instruction::Comment(..) => VMState::Continue,
        }
    }

    /// Executes a program's instructions in order: an error is reported and the next
    /// instruction follows; a return ends the program.
    fn eval(&mut self, program: &Program) -> (r: ReturnState)
        ensures
            final(self).level() == old(self).level(),
            extends(old(self).answers(), final(self).answers()),
            forall|roots: spec_fn(nat) -> Option<DecimalValue>|
                agrees(roots, final(self).answers()) ==> #[trigger] eval_list(
                    roots,
                    old(self).level(),
                    old(self)@,
                    instruction_views(program.instructions@),
                ) == (final(self)@, r),
        decreases MAX_MACRO_DEPTH - old(self).level(), 2nat, 0nat,
    {
        let ghost level = self.level();
        let ghost start = self@;
        let ghost first_answers = self.answers();
        let ghost l = instruction_views(program.instructions@);
        proof {
            lemma_extends_refl(self.answers());
            assert(l.skip(0) =~= l);
        }
        let mut i: usize = 0;
        while i < program.instructions.len()
            invariant
                i <= program.instructions@.len(),
                l == instruction_views(program.instructions@),
                self.level() == level,
                level == old(self).level(),
                start == old(self)@,
                first_answers == old(self).answers(),
                extends(first_answers, self.answers()),
                forall|roots: spec_fn(nat) -> Option<DecimalValue>|
                    agrees(roots, self.answers()) ==> #[trigger] eval_list(roots, level, start, l)
                        == eval_list(roots, level, self@, l.skip(i as int)),
            decreases program.instructions@.len() - i,
        {
            let ghost before = self@;
            let ghost before_answers = self.answers();
            let st = self.eval_instruction(&program.instructions[i]);
            let ghost after = self@;
            proof {
                assert(l.skip(i as int)[0] == program.instructions@[i as int]@);
                assert(l.skip(i as int).drop_first() =~= l.skip(i + 1));
            }
            let is_return = match st {
                VMState::TerminatingReturn
                | VMState::TerminatingReturnEnclosing
                | VMState::NonTerminatingReturn(..) => true,
                _ => false,
            };
            if is_return {
                proof {
                    lemma_extends_trans(first_answers, before_answers, self.answers());
                    assert forall|roots: spec_fn(nat) -> Option<DecimalValue>|
                        agrees(roots, self.answers()) implies #[trigger] eval_list(
                            roots,
                            level,
                            start,
                            l,
                        ) == (self@, return_of_state(st)) by {
                        lemma_agrees_prefix(roots, before_answers, self.answers());
                        assert(eval_list(roots, level, start, l) == eval_list(roots, level, before, l.skip(i as int)));
                        assert(step(roots, level, before, l.skip(i as int)[0]) == (self@, st));
                    }
                }
                return ReturnState::from(st);
            }
            let goes_on = match st {
                VMState::Continue => true,
                _ => false,
            };
            if !goes_on {
                write_error_line(&mut self.error_sink, st);
            }
            proof {
                lemma_extends_trans(first_answers, before_answers, self.answers());
                assert forall|roots: spec_fn(nat) -> Option<DecimalValue>|
                    agrees(roots, self.answers()) implies #[trigger] eval_list(roots, level, start, l)
                        == eval_list(roots, level, self@, l.skip(i + 1)) by {
                    lemma_agrees_prefix(roots, before_answers, self.answers());
                    assert(eval_list(roots, level, start, l) == eval_list(roots, level, before, l.skip(i as int)));
                    assert(step(roots, level, before, l.skip(i as int)[0]) == (after, st));
                    if !(st is Continue) {
                        assert(self@ == report(after, st));
                    } else {
                        assert(self@ == after);
                    }
                }
            }
            i = i + 1;
        }
        ReturnState::Done
    }

    /// Runs a program text: its instructions; when it cannot be read to the end, those before
    /// the point where reading stopped, then the message of the parse error and the rest of
    /// the text, unless a return ended the first part.
    pub fn execute(&mut self, program_text: &[u8]) -> (r: ReturnState)
        ensures
            final(self).level() == old(self).level(),
            extends(old(self).answers(), final(self).answers()),
            forall|roots: spec_fn(nat) -> Option<DecimalValue>|
                agrees(roots, final(self).answers()) ==> #[trigger] run(
                    roots,
                    old(self).level(),
                    old(self)@,
                    program_text@,
                ) == (final(self)@, r),
        decreases MAX_MACRO_DEPTH - old(self).level(), 3nat, program_text@.len(),
    {
        match parse(program_text) {
            Ok(instructions) => {
                let ghost before = self@;
                let program = Program { instructions };
                let r = self.eval(&program);
                proof {
                    assert forall|roots: spec_fn(nat) -> Option<DecimalValue>|
                        agrees(roots, self.answers()) implies #[trigger] run(
                            roots,
                            self.level(),
                            before,
                            program_text@,
                        ) == (self@, r) by {
                        assert(eval_list(roots, self.level(), before, instruction_views(program.instructions@)) == (self@, r));
                    }
                }
                r
            },
            Err(parse_error) => {
                let ghost before = self@;
                let ghost first_answers = self.answers();
                let eval_res = self.eval(&parse_error.program);
                let ghost middle_answers = self.answers();
                if eval_res.terminates_exec() {
                    proof {
                        assert forall|roots: spec_fn(nat) -> Option<DecimalValue>|
                            agrees(roots, self.answers()) implies #[trigger] run(
                                roots,
                                self.level(),
                                before,
                                program_text@,
                            ) == (self@, eval_res) by {
                            if let ParseOutcome::Stopped { parsed, .. } = parse_from(program_text@, 0) {
                                assert(parsed == instruction_views(parse_error.program.instructions@));
                                assert(eval_list(roots, self.level(), before, parsed) == (self@, eval_res));
                            }
                        }
                    }
                    return eval_res;
                }
                let ghost evaluated = self@;
                append_bytes(&mut self.error_sink, "dc: ".as_bytes());
                let message = parse_error.message();
                append_bytes(&mut self.error_sink, message.as_slice());
                self.error_sink.push(10u8);
                proof {
                    lemma_resume_advances(program_text@, 0);
                }
                let ghost reported = self@;
                let r = self.execute(parse_error.unparsed);
                proof {
                    lemma_extends_trans(first_answers, middle_answers, self.answers());
                    assert forall|roots: spec_fn(nat) -> Option<DecimalValue>|
                        agrees(roots, self.answers()) implies #[trigger] run(
                            roots,
                            self.level(),
                            before,
                            program_text@,
                        ) == (self@, r) by {
                        lemma_agrees_prefix(roots, middle_answers, self.answers());
                        if let ParseOutcome::Stopped { parsed, position, error, resume } = parse_from(program_text@, 0) {
                            assert(parsed == instruction_views(parse_error.program.instructions@));
                            assert(eval_list(roots, self.level(), before, parsed) == (evaluated, eval_res));
                            assert(position == parse_error.position && error == parse_error.error_type@);
                            assert(parse_error.unparsed@ == program_text@.subrange(resume as int, program_text@.len() as int));
                            assert(run(roots, self.level(), reported, parse_error.unparsed@) == (self@, r));
                        }
                        assert(reported.errors =~= evaluated.errors + "dc: ".spec_bytes() + crate::parse::error_text(
                            parse_error.position as nat,
                            parse_error.error_type@,
                        ) + seq![10u8]);
                    }
                }
                r
            },
        }
    }

    /// Runs a macro one level deeper, and passes its return on to the level that called it.
    fn execute_macro(&mut self, program_text: &[u8]) -> (r: ReturnState)
        requires
            old(self).level() < MAX_MACRO_DEPTH,
        ensures
            final(self).level() == old(self).level(),
            extends(old(self).answers(), final(self).answers()),
            forall|roots: spec_fn(nat) -> Option<DecimalValue>|
                agrees(roots, final(self).answers()) ==> (final(self)@, r) == (#[trigger] run(
                    roots,
                    old(self).level() + 1,
                    old(self)@,
                    program_text@,
                ).0, next_return(run(roots, old(self).level() + 1, old(self)@, program_text@).1)),
        decreases MAX_MACRO_DEPTH - old(self).level(), 0nat, 0nat,
    {
        self.macro_level = self.macro_level + 1;
        let ghost deeper = self.level();
        let ghost at_call = self@;
        assert(at_call == old(self)@);
        let result_status = self.execute(program_text);
        let ghost after = self@;
        let ghost after_answers = self.answers();
        self.macro_level = self.macro_level - 1;
        assert(self@ == after);
        assert(self.answers() == after_answers);
        let r = result_status.next();
        proof {
            assert forall|roots: spec_fn(nat) -> Option<DecimalValue>|
                agrees(roots, self.answers()) implies (self@, r) == (#[trigger] run(
                    roots,
                    old(self).level() + 1,
                    old(self)@,
                    program_text@,
                ).0, next_return(run(roots, old(self).level() + 1, old(self)@, program_text@).1)) by {
                assert(deeper == old(self).level() + 1);
                assert(run(roots, deeper, old(self)@, program_text@) == (self@, result_status));
            }
        }
        r
    }
}

proof fn lemma_extends_refl(a: Seq<Option<DecimalValue>>)
    ensures
        extends(a, a),
{
    assert(a.subrange(0, a.len() as int) =~= a);
}

proof fn lemma_extends_trans(a: Seq<Option<DecimalValue>>, b: Seq<Option<DecimalValue>>, c: Seq<Option<DecimalValue>>)
    requires
        extends(a, b),
        extends(b, c),
    ensures
        extends(a, c),
{
    assert(c.subrange(0, a.len() as int) =~= b.subrange(0, a.len() as int));
}

proof fn lemma_agrees_prefix(
    roots: spec_fn(nat) -> Option<DecimalValue>,
    a: Seq<Option<DecimalValue>>,
    b: Seq<Option<DecimalValue>>,
)
    requires
        extends(a, b),
        agrees(roots, b),
    ensures
        agrees(roots, a),
{
    assert forall|k: nat| k < a.len() implies #[trigger] roots(k) == a[k as int] by {
        assert(roots(k) == b[k as int]);
        assert(b.subrange(0, a.len() as int)[k as int] == b[k as int]);
    }
}

} // verus!
