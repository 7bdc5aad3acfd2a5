//! Reading the text of a `dc` program into instructions.
use vstd::prelude::*;
use vstd::slice::slice_subrange;
use vstd::string::StringSliceAdditionalSpecFns;
use vstd::utf8::encode_utf8;
use crate::instructions::{
    append_bytes,
    instruction_views,
    is_simple_command,
    simple_instruction,
    Instruction,
    InstructionView,
    Program,
    RegisterOperationType,
};
use crate::numtext::{find_byte, lemma_find_byte_bounds, nat_text, u64_text};

verus! {

/// Why reading stopped before the end of the text.
#[derive(Clone, Debug, PartialEq)]
pub enum ParserErrorType {
    /// A byte that starts no instruction.
    InvalidCharacter(u8),
    /// The text ended in the middle of an instruction.
    EOP(String),
}

/// A reason to stop, as a value.
pub enum ErrorView {
    InvalidCharacter(u8),
    Eop(Seq<char>),
}

impl View for ParserErrorType {
    type V = ErrorView;

    open spec fn view(&self) -> ErrorView {
        match self {
            ParserErrorType::InvalidCharacter(c) => ErrorView::InvalidCharacter(*c),
            ParserErrorType::EOP(s) => ErrorView::Eop(s@),
        }
    }
}

/// Where and why reading stopped, with the instructions read before that point and the text
/// after it.
#[derive(Clone, Debug, PartialEq)]
pub struct ParserError<'a> {
    pub position: usize,
    pub error_type: ParserErrorType,
    pub program: Program<'a>,
    pub unparsed: &'a [u8],
}

/// What reading a text gives: all its instructions, or those before the point where it stopped,
/// that point, the reason, and where reading may go on.
pub enum ParseOutcome {
    Complete(Seq<InstructionView>),
    Stopped { parsed: Seq<InstructionView>, position: nat, error: ErrorView, resume: nat },
}

/// `c` is one of the ASCII characters `0` to `9`.
pub open spec fn is_decimal_digit(c: u8) -> bool {
    48 <= c <= 57
}

/// The end of the run of decimal digits that starts at `p`.
pub open spec fn digits_end(s: Seq<u8>, p: nat) -> nat
    decreases s.len() - p,
{
    if p < s.len() && is_decimal_digit(s[p as int]) {
        digits_end(s, p + 1)
    } else {
        p
    }
}

/// The end of the number that starts at `p`: digits, then a dot and digits if a dot follows.
pub open spec fn number_end(s: Seq<u8>, p: nat) -> nat {
    let i = digits_end(s, p);
    if i < s.len() && s[i as int] == 46 {
        digits_end(s, i + 1)
    } else {
        i
    }
}

/// The number that starts at `p`, split at its dot.
pub open spec fn number_at(s: Seq<u8>, p: nat) -> InstructionView {
    let i = digits_end(s, p);
    if i < s.len() && s[i as int] == 46 {
        InstructionView::Num(s.subrange(p as int, i as int), s.subrange(i as int + 1, digits_end(s, i + 1) as int))
    } else {
        InstructionView::Num(s.subrange(p as int, i as int), Seq::empty())
    }
}

/// The register operation that the character `c` introduces.
pub open spec fn register_command(c: u8) -> Option<RegisterOperationType> {
    if c == 115 {
        Some(RegisterOperationType::Store)
    } else if c == 108 {
        Some(RegisterOperationType::Load)
    } else if c == 83 {
        Some(RegisterOperationType::StoreStack)
    } else if c == 76 {
        Some(RegisterOperationType::LoadStack)
    } else if c == 62 {
        Some(RegisterOperationType::TosGtExecute)
    } else if c == 60 {
        Some(RegisterOperationType::TosLtExecute)
    } else if c == 61 {
        Some(RegisterOperationType::TosEqExecute)
    } else if c == 58 {
        Some(RegisterOperationType::SetArray)
    } else if c == 59 {
        Some(RegisterOperationType::GetArray)
    } else {
        None
    }
}

/// The register operation that `!` followed by `c` introduces.
pub open spec fn negated_register_command(c: u8) -> Option<RegisterOperationType> {
    if c == 62 {
        Some(RegisterOperationType::TosGeExecute)
    } else if c == 60 {
        Some(RegisterOperationType::TosLeExecute)
    } else if c == 61 {
        Some(RegisterOperationType::TosNeExecute)
    } else {
        None
    }
}

/// The instructions `l` put in front of an outcome.
pub open spec fn prepend_all(l: Seq<InstructionView>, o: ParseOutcome) -> ParseOutcome {
    match o {
        ParseOutcome::Complete(rest) => ParseOutcome::Complete(l + rest),
        ParseOutcome::Stopped { parsed, position, error, resume } => ParseOutcome::Stopped {
            parsed: l + parsed,
            position,
            error,
            resume,
        },
    }
}

/// The text ends in the middle of an instruction.
pub open spec fn end_of_program(s: Seq<u8>, why: Seq<char>) -> ParseOutcome {
    ParseOutcome::Stopped {
        parsed: Seq::empty(),
        position: s.len(),
        error: ErrorView::Eop(why),
        resume: s.len(),
    }
}

pub open spec fn expecting_register() -> Seq<char> {
    "was expecting a register"@
}

pub open spec fn string_not_completed() -> Seq<char> {
    "string not completed"@
}

/// Reading the text `s` from the position `p` on. Blanks and newlines separate instructions;
/// a number is digits with at most one dot; a register operation takes the byte after it,
/// whatever it is; `!` takes the rest of its line as a command, unless `<`, `>` or `=`
/// follows it; `[` starts a string that `]` ends; `#` starts a comment that a newline ends.
/// An empty comment gives no instruction, while `[]` is the empty string; a string, command or
/// comment that the text ends in is kept.
pub open spec fn parse_from(s: Seq<u8>, p: nat) -> ParseOutcome
    decreases s.len() - p,
{
    if p >= s.len() {
        ParseOutcome::Complete(Seq::empty())
    } else {
        let c = s[p as int];
        if c == 32 || c == 10 {
            parse_from(s, p + 1)
        } else if is_simple_command(c) {
            prepend_all(seq![InstructionView::Op(c)], parse_from(s, p + 1))
        } else if is_decimal_digit(c) || c == 46 {
            proof {
                lemma_number_end(s, p);
            }
            prepend_all(seq![number_at(s, p)], parse_from(s, number_end(s, p)))
        } else if register_command(c) is Some {
            if p + 1 < s.len() {
                prepend_all(
                    seq![InstructionView::Register(register_command(c).unwrap(), s[p as int + 1])],
                    parse_from(s, p + 2),
                )
            } else {
                end_of_program(s, expecting_register())
            }
        } else if c == 33 {
            if p + 1 >= s.len() {
                ParseOutcome::Complete(Seq::empty())
            } else if negated_register_command(s[p as int + 1]) is Some {
                if p + 2 < s.len() {
                    prepend_all(
                        seq![
                            InstructionView::Register(
                                negated_register_command(s[p as int + 1]).unwrap(),
                                s[p as int + 2],
                            ),
                        ],
                        parse_from(s, p + 3),
                    )
                } else {
                    end_of_program(s, expecting_register())
                }
            } else {
                let e = find_byte(s, p + 2, 10);
                proof {
                    lemma_find_byte_bounds(s, p + 2, 10);
                }
                let i = InstructionView::System(s.subrange(p as int + 1, e as int));
                if e < s.len() {
                    prepend_all(seq![i], parse_from(s, e + 1))
                } else {
                    ParseOutcome::Complete(seq![i])
                }
            }
        } else if c == 91 {
            if p + 1 >= s.len() {
                end_of_program(s, string_not_completed())
            } else if s[p as int + 1] == 93 {
                prepend_all(seq![InstructionView::Str(Seq::empty())], parse_from(s, p + 2))
            } else {
                let e = find_byte(s, p + 2, 93);
                proof {
                    lemma_find_byte_bounds(s, p + 2, 93);
                }
                let i = InstructionView::Str(s.subrange(p as int + 1, e as int));
                if e < s.len() {
                    prepend_all(seq![i], parse_from(s, e + 1))
                } else {
                    ParseOutcome::Complete(seq![i])
                }
            }
        } else if c == 35 {
            if p + 1 >= s.len() {
                ParseOutcome::Complete(Seq::empty())
            } else if s[p as int + 1] == 10 {
                parse_from(s, p + 2)
            } else {
                let e = find_byte(s, p + 2, 10);
                proof {
                    lemma_find_byte_bounds(s, p + 2, 10);
                }
                let i = InstructionView::Comment(s.subrange(p as int + 1, e as int));
                if e < s.len() {
                    prepend_all(seq![i], parse_from(s, e + 1))
                } else {
                    ParseOutcome::Complete(seq![i])
                }
            }
        } else {
            ParseOutcome::Stopped {
                parsed: Seq::empty(),
                position: p,
                error: ErrorView::InvalidCharacter(c),
                resume: p + 1,
            }
        }
    }
}

pub proof fn lemma_digits_end(s: Seq<u8>, p: nat)
    requires
        p <= s.len(),
    ensures
        p <= digits_end(s, p) <= s.len(),
        p < s.len() && is_decimal_digit(s[p as int]) ==> digits_end(s, p) > p,
        forall|i: int| p <= i < digits_end(s, p) ==> is_decimal_digit(#[trigger] s[i]),
        digits_end(s, p) < s.len() ==> !is_decimal_digit(s[digits_end(s, p) as int]),
    decreases s.len() - p,
{
    if p < s.len() && is_decimal_digit(s[p as int]) {
        lemma_digits_end(s, p + 1);
    }
}

pub proof fn lemma_number_end(s: Seq<u8>, p: nat)
    requires
        p < s.len(),
        is_decimal_digit(s[p as int]) || s[p as int] == 46,
    ensures
        p < number_end(s, p) <= s.len(),
{
    lemma_digits_end(s, p);
    let i = digits_end(s, p);
    if i < s.len() && s[i as int] == 46 {
        lemma_digits_end(s, i + 1);
    }
}

/// `e` tells where and why reading `text` stopped, as the outcome `o` does.
pub open spec fn stopped_with<'a>(o: ParseOutcome, e: ParserError<'a>, text: Seq<u8>) -> bool {
    match o {
        ParseOutcome::Stopped { parsed, position, error, resume } => {
            &&& parsed == instruction_views(e.program.instructions@)
            &&& position == e.position
            &&& error == e.error_type@
            &&& resume <= text.len()
            &&& e.unparsed@ == text.subrange(resume as int, text.len() as int)
        },
        ParseOutcome::Complete(_) => false,
    }
}

/// The character whose code is `c`, in UTF-8.
pub open spec fn char_bytes(c: u8) -> Seq<u8> {
    if c < 128 {
        seq![c]
    } else {
        seq![(192 + c / 64) as u8, (128 + c % 64) as u8]
    }
}

/// The text of a parse error, ending in a newline.
pub open spec fn error_text(position: nat, error: ErrorView) -> Seq<u8> {
    match error {
        ErrorView::InvalidCharacter(c) => "invalid character ".spec_bytes() + char_bytes(c)
            + " at position ".spec_bytes() + nat_text(position) + seq![10u8],
        ErrorView::Eop(why) => "end of program ".spec_bytes() + encode_utf8(why) + seq![10u8],
    }
}

impl<'a> ParserError<'a> {
    /// The text of the error, as its `Display` writes it.
    pub fn message(&self) -> (r: Vec<u8>)
        ensures
            r@ == error_text(self.position as nat, self.error_type@),
    {
        let mut out: Vec<u8> = Vec::new();
        match &self.error_type {
            ParserErrorType::InvalidCharacter(c) => {
                append_bytes(&mut out, "invalid character ".as_bytes());
                let c = *c;
                if c < 128u8 {
                    out.push(c);
                } else {
                    out.push(192u8 + c / 64u8);
                    out.push(128u8 + c % 64u8);
                }
                append_bytes(&mut out, " at position ".as_bytes());
                let position = u64_text(self.position as u64);
                append_bytes(&mut out, position.as_slice());
                out.push(10u8);
            },
            ParserErrorType::EOP(why) => {
                append_bytes(&mut out, "end of program ".as_bytes());
                append_bytes(&mut out, why.as_str().as_bytes());
                out.push(10u8);
            },
        }
        assert(out@ =~= error_text(self.position as nat, self.error_type@));
        out
    }
}

/// The register operation that the character `c` introduces.
fn register_command_of(c: u8) -> (r: Option<RegisterOperationType>)
    ensures
        r == register_command(c),
{
    match c {
        115 => Some(RegisterOperationType::Store),
        108 => Some(RegisterOperationType::Load),
        83 => Some(RegisterOperationType::StoreStack),
        76 => Some(RegisterOperationType::LoadStack),
        62 => Some(RegisterOperationType::TosGtExecute),
        60 => Some(RegisterOperationType::TosLtExecute),
        61 => Some(RegisterOperationType::TosEqExecute),
        58 => Some(RegisterOperationType::SetArray),
        59 => Some(RegisterOperationType::GetArray),
        _ => None,
    }
}

/// The register operation that `!` followed by `c` introduces.
fn negated_register_command_of(c: u8) -> (r: Option<RegisterOperationType>)
    ensures
        r == negated_register_command(c),
{
    match c {
        62 => Some(RegisterOperationType::TosGeExecute),
        60 => Some(RegisterOperationType::TosLeExecute),
        61 => Some(RegisterOperationType::TosNeExecute),
        _ => None,
    }
}

/// The end of the run of decimal digits that starts at `p`.
fn scan_digits(s: &[u8], p: usize) -> (e: usize)
    requires
        p <= s@.len(),
    ensures
        e == digits_end(s@, p as nat),
{
    let mut i = p;
    while i < s.len() && 48u8 <= s[i] && s[i] <= 57u8
        invariant
            p <= i <= s@.len(),
            digits_end(s@, p as nat) == digits_end(s@, i as nat),
        decreases s@.len() - i,
    {
        i = i + 1;
    }
    i
}

/// The first index at or after `p` that holds `b`, or the length.
fn scan_until(s: &[u8], p: usize, b: u8) -> (e: usize)
    requires
        p <= s@.len(),
    ensures
        e == find_byte(s@, p as nat, b),
{
    let mut i = p;
    while i < s.len() && s[i] != b
        invariant
            p <= i <= s@.len(),
            find_byte(s@, p as nat, b) == find_byte(s@, i as nat, b),
        decreases s@.len() - i,
    {
        i = i + 1;
    }
    i
}

proof fn lemma_prepend_push(l: Seq<InstructionView>, i: InstructionView, o: ParseOutcome)
    ensures
        prepend_all(l, prepend_all(seq![i], o)) == prepend_all(l.push(i), o),
{
    match o {
        ParseOutcome::Complete(rest) => {
            assert(l + (seq![i] + rest) =~= l.push(i) + rest);
        },
        ParseOutcome::Stopped { parsed, .. } => {
            assert(l + (seq![i] + parsed) =~= l.push(i) + parsed);
        },
    }
}

proof fn lemma_views_push<'a>(v: Seq<Instruction<'a>>, i: Instruction<'a>)
    ensures
        instruction_views(v.push(i)) == instruction_views(v).push(i@),
{
    assert(instruction_views(v.push(i)) =~= instruction_views(v).push(i@));
}

/// Reads a program text into its instructions, or into those before the point where it has
/// to stop, with the reason and the rest of the text.
pub fn parse<'a>(program_text: &'a [u8]) -> (r: Result<Vec<Instruction<'a>>, ParserError<'a>>)
    ensures
        match r {
            Ok(instructions) => parse_from(program_text@, 0) == ParseOutcome::Complete(
                instruction_views(instructions@),
            ),
            Err(e) => stopped_with(parse_from(program_text@, 0), e, program_text@),
        },
{
    let s = program_text;
    let mut instructions: Vec<Instruction<'a>> = Vec::new();
    let mut pos: usize = 0;
    while pos < s.len()
        invariant
            s@ == program_text@,
            pos <= s@.len(),
            parse_from(s@, 0) == prepend_all(instruction_views(instructions@), parse_from(s@, pos as nat)),
        decreases s@.len() - pos,
    {
        let ghost old_views = instruction_views(instructions@);
        let c = s[pos];
        if c == 32u8 || c == 10u8 {
            pos = pos + 1;
        } else if c == 0u8 || c == 112u8 || c == 110u8 || c == 80u8 || c == 102u8 || c == 43u8
            || c == 45u8 || c == 42u8 || c == 47u8 || c == 37u8 || c == 126u8 || c == 94u8 || c
            == 124u8 || c == 118u8 || c == 99u8 || c == 100u8 || c == 114u8 || c == 105u8 || c
            == 111u8 || c == 107u8 || c == 73u8 || c == 79u8 || c == 75u8 || c == 97u8 || c
            == 120u8 || c == 63u8 || c == 113u8 || c == 81u8 || c == 90u8 || c == 88u8 || c
            == 122u8 {
            let i = simple_instruction(c);
            proof {
                lemma_views_push(instructions@, i);
                lemma_prepend_push(old_views, i@, parse_from(s@, (pos + 1) as nat));
            }
            instructions.push(i);
            pos = pos + 1;
        } else if (48u8 <= c && c <= 57u8) || c == 46u8 {
            let int_end = scan_digits(s, pos);
            proof {
                lemma_digits_end(s@, pos as nat);
            }
            let i;
            let next;
            if int_end < s.len() && s[int_end] == 46u8 {
                let frac_end = scan_digits(s, int_end + 1);
                proof {
                    lemma_digits_end(s@, (int_end + 1) as nat);
                }
                i = Instruction::Num(slice_subrange(s, pos, int_end), slice_subrange(s, int_end + 1, frac_end));
                next = frac_end;
            } else {
                i = Instruction::Num(slice_subrange(s, pos, int_end), slice_subrange(s, int_end, int_end));
                next = int_end;
                assert(s@.subrange(int_end as int, int_end as int) =~= Seq::<u8>::empty());
                assert(i@ == number_at(s@, pos as nat));
            }
            proof {
                lemma_number_end(s@, pos as nat);
                lemma_views_push(instructions@, i);
                lemma_prepend_push(old_views, i@, parse_from(s@, next as nat));
            }
            instructions.push(i);
            pos = next;
        } else if let Some(t) = register_command_of(c) {
            if pos + 1 < s.len() {
                let i = Instruction::RegisterOperation(t, s[pos + 1]);
                proof {
                    lemma_views_push(instructions@, i);
                    lemma_prepend_push(old_views, i@, parse_from(s@, (pos + 2) as nat));
                }
                instructions.push(i);
                pos = pos + 2;
            } else {
                return Err(end_error(s, instructions, "was expecting a register"));
            }
        } else if c == 33u8 {
            if pos + 1 >= s.len() {
                proof {
                    assert(old_views + Seq::empty() =~= old_views);
                }
                return Ok(instructions);
            }
            if let Some(t) = negated_register_command_of(s[pos + 1]) {
                if pos + 2 < s.len() {
                    let i = Instruction::RegisterOperation(t, s[pos + 2]);
                    proof {
                        lemma_views_push(instructions@, i);
                        lemma_prepend_push(old_views, i@, parse_from(s@, (pos + 3) as nat));
                    }
                    instructions.push(i);
                    pos = pos + 3;
                } else {
                    return Err(end_error(s, instructions, "was expecting a register"));
                }
            } else {
                let e = scan_until(s, pos + 2, 10u8);
                proof {
                    lemma_find_byte_bounds(s@, (pos + 2) as nat, 10);
                }
                let i = Instruction::System(slice_subrange(s, pos + 1, e));
                proof {
                    lemma_views_push(instructions@, i);
                }
                instructions.push(i);
                if e < s.len() {
                    proof {
                        lemma_prepend_push(old_views, i@, parse_from(s@, (e + 1) as nat));
                    }
                    pos = e + 1;
                } else {
                    proof {
                        assert(old_views + seq![i@] =~= instruction_views(instructions@));
                    }
                    return Ok(instructions);
                }
            }
        } else if c == 91u8 {
            if pos + 1 >= s.len() {
                return Err(end_error(s, instructions, "string not completed"));
            }
            if s[pos + 1] == 93u8 {
                let i = Instruction::Str(slice_subrange(s, pos + 1, pos + 1));
                proof {
                    lemma_views_push(instructions@, i);
                    assert(i@ == InstructionView::Str(Seq::<u8>::empty())) by {
                        assert(s@.subrange(pos + 1, pos + 1) =~= Seq::<u8>::empty());
                    }
                    lemma_prepend_push(old_views, i@, parse_from(s@, (pos + 2) as nat));
                }
                instructions.push(i);
                pos = pos + 2;
            } else {
                let e = scan_until(s, pos + 2, 93u8);
                proof {
                    lemma_find_byte_bounds(s@, (pos + 2) as nat, 93);
                }
                let i = Instruction::Str(slice_subrange(s, pos + 1, e));
                proof {
                    lemma_views_push(instructions@, i);
                }
                instructions.push(i);
                if e < s.len() {
                    proof {
                        lemma_prepend_push(old_views, i@, parse_from(s@, (e + 1) as nat));
                    }
                    pos = e + 1;
                } else {
                    proof {
                        assert(old_views + seq![i@] =~= instruction_views(instructions@));
                    }
                    return Ok(instructions);
                }
            }
        } else if c == 35u8 {
            if pos + 1 >= s.len() {
                proof {
                    assert(old_views + Seq::empty() =~= old_views);
                }
                return Ok(instructions);
            }
            if s[pos + 1] == 10u8 {
                pos = pos + 2;
            } else {
                let e = scan_until(s, pos + 2, 10u8);
                proof {
                    lemma_find_byte_bounds(s@, (pos + 2) as nat, 10);
                }
                let i = Instruction::Comment(slice_subrange(s, pos + 1, e));
                proof {
                    lemma_views_push(instructions@, i);
                }
                instructions.push(i);
                if e < s.len() {
                    proof {
                        lemma_prepend_push(old_views, i@, parse_from(s@, (e + 1) as nat));
                    }
                    pos = e + 1;
                } else {
                    proof {
                        assert(old_views + seq![i@] =~= instruction_views(instructions@));
                    }
                    return Ok(instructions);
                }
            }
        } else {
            proof {
                assert(old_views + Seq::empty() =~= old_views);
                assert(!is_simple_command(c));
                assert(register_command(c) is None);
                assert(parse_from(s@, pos as nat) == (ParseOutcome::Stopped {
                    parsed: Seq::empty(),
                    position: pos as nat,
                    error: ErrorView::InvalidCharacter(c),
                    resume: (pos + 1) as nat,
                }));
                assert(parse_from(s@, 0) == (ParseOutcome::Stopped {
                    parsed: instruction_views(instructions@),
                    position: pos as nat,
                    error: ErrorView::InvalidCharacter(c),
                    resume: (pos + 1) as nat,
                }));
            }
            let e = ParserError {
                position: pos,
                error_type: ParserErrorType::InvalidCharacter(c),
                program: Program { instructions },
                unparsed: slice_subrange(s, pos + 1, s.len()),
            };
            return Err(e);
        }
    }
    proof {
        assert(instruction_views(instructions@) + Seq::empty() =~= instruction_views(instructions@));
    }
    Ok(instructions)
}

/// The error for a text that ends in the middle of an instruction.
fn end_error<'a>(s: &'a [u8], instructions: Vec<Instruction<'a>>, why: &str) -> (e: ParserError<'a>)
    ensures
        stopped_with(prepend_all(instruction_views(instructions@), end_of_program(s@, why@)), e, s@),
{
    proof {
        assert(instruction_views(instructions@) + Seq::empty() =~= instruction_views(instructions@));
    }
    ParserError {
        position: s.len(),
        error_type: ParserErrorType::EOP(why.to_owned()),
        program: Program { instructions },
        unparsed: slice_subrange(s, s.len(), s.len()),
    }
}

} // verus!
