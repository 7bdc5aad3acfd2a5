use rdc::dcstack::{DCError, DCStack, MemoryCell};
use rdc::decimal::Decimal;
use rdc::instructions::{Instruction, RegisterOperationType};
use rdc::parse::{parse, ParserError, ParserErrorType};
use rdc::vm::{NoSquareRoot, ReturnState, SquareRoot, VMState, VM};
use rdc::{dc, Invocation, ProgramSource};

fn decimal(text: &str) -> Decimal {
    Decimal::from_literal(text.as_bytes()).expect(text)
}

fn text_of(n: &Decimal) -> String {
    String::from_utf8(MemoryCell::Num(n.clone()).to_str_radix(10)).unwrap()
}

fn run(program: &[u8]) -> (String, String) {
    let mut vm = VM::default();
    let _ = vm.execute(program);
    let (out, err) = vm.sinks();
    (String::from_utf8(out).unwrap(), String::from_utf8(err).unwrap())
}

struct FloatSquareRoot;

impl SquareRoot for FloatSquareRoot {
    fn square_root(&self, n: &Decimal) -> Option<Decimal> {
        let text = String::from_utf8(MemoryCell::Num(n.clone()).to_str_radix(10)).ok()?;
        let value: f64 = text.parse().ok()?;
        let root = value.sqrt();
        if !root.is_finite() {
            return None;
        }
        let big = <bigdecimal::BigDecimal as bigdecimal::FromPrimitive>::from_f64(root)?;
        Decimal::from_literal(big.to_plain_string().as_bytes())
    }
}

fn run_with_roots(program: &[u8]) -> (String, String) {
    let mut vm = VM::new(FloatSquareRoot);
    let _ = vm.execute(program);
    let (out, err) = vm.sinks();
    (String::from_utf8(out).unwrap(), String::from_utf8(err).unwrap())
}

#[test]
fn test_exec() {
    let mut vm = VM::default();
    assert_eq!(ReturnState::Done, vm.execute(b"110.0[p]x"));
    let (actual_output, actual_error) = vm.sinks();
    assert_eq!(
        ("110.0\n".to_string(), String::new()),
        (
            String::from_utf8(actual_output).expect("utf8 output"),
            String::from_utf8(actual_error).expect("utf8 error")
        ),
    );
}

#[test]
fn programs_print_what_dc_prints() {
    assert_eq!(("".to_string(), "".to_string()), run(b"10"));
    assert_eq!(("10\n".to_string(), "".to_string()), run(b"10p"));
    assert_eq!(("10\n".to_string(), "".to_string()), run(b"10n"));
    assert_eq!(("10\n0\n".to_string(), "".to_string()), run(b"10nzp"));
    assert_eq!(("10\n".to_string(), "".to_string()), run(b"8o 8p"));
    assert_eq!(("8\n".to_string(), "".to_string()), run(b"8iIp"));
    assert_eq!(("30\n".to_string(), "".to_string()), run(b"10 20 + p"));
    assert_eq!(("-10\n".to_string(), "".to_string()), run(b"10 20 - p"));
    assert_eq!(("200\n".to_string(), "".to_string()), run(b"10 20 * p"));
    assert_eq!(("0\n".to_string(), "".to_string()), run(b"10 20 / p"));
    assert_eq!(("10\n".to_string(), "".to_string()), run(b"10 20 % p"));
    assert_eq!(("10\n20\n".to_string(), "".to_string()), run(b"10 20 rf"));
    assert_eq!(("".to_string(), "".to_string()), run(b"10cf"));
    assert_eq!(("".to_string(), "".to_string()), run(b"cf"));
}

#[test]
fn returns_leave_macros() {
    assert_eq!(("".to_string(), "".to_string()), run(b"q10p"));
    assert_eq!(("".to_string(), "".to_string()), run(b"q"));
    assert_eq!(("".to_string(), "".to_string()), run(b"[qp]x10p"));
    assert_eq!(("".to_string(), "".to_string()), run(b"[qp]x"));
    assert_eq!(("10\n".to_string(), "".to_string()), run(b"[qp][x]x10p"));
}

#[test]
fn square_roots_come_from_the_provider() {
    assert_eq!(("2\n".to_string(), "".to_string()), run_with_roots(b"4vp"));
    assert_eq!(("2.00\n".to_string(), "".to_string()), run_with_roots(b"2k4vp"));
    assert_eq!(("1\n".to_string(), "".to_string()), run_with_roots(b"2vp"));
    assert_eq!(("1.41\n".to_string(), "".to_string()), run_with_roots(b"2k2vp"));
    assert_eq!(("".to_string(), "dc: internal conversion error\n".to_string()), run(b"4v"));
}

#[test]
fn errors_are_reported_and_execution_goes_on() {
    assert_eq!(("".to_string(), "dc: stack empty\n".to_string()), run(b"p"));
    assert_eq!(("".to_string(), "dc: stack empty\n".to_string()), run(b"1+"));
    assert_eq!(("".to_string(), "dc: non numeric value\n".to_string()), run(b"[a]1+"));
    assert_eq!(("".to_string(), "dc: non string value\n".to_string()), run(b"1x"));
    assert_eq!(("".to_string(), "dc: divide by zero\n".to_string()), run(b"1 0/"));
    assert_eq!(("".to_string(), "dc: divide by zero\n".to_string()), run(b"1 0%"));
    assert_eq!(("".to_string(), "dc: invalid input radix\n".to_string()), run(b"17i"));
    assert_eq!(("".to_string(), "dc: invalid output radix\n".to_string()), run(b"1o"));
    assert_eq!(("".to_string(), "dc: invalid precision\n".to_string()), run(b"1k"));
    assert_eq!(("".to_string(), "dc: not implemented\n".to_string()), run(b"1 2^"));
    assert_eq!(("".to_string(), "dc: Q command requires a number >= 1\n".to_string()), run(b"0 1-Q"));
    assert_eq!(("1\n".to_string(), "".to_string()), run(b"[1p][x][x]x"));
    assert_eq!(
        ("2\n".to_string(), "dc: invalid character \u{1} at position 0\n\n".to_string()),
        run(b"\x012p")
    );
    assert_eq!(("".to_string(), "dc: end of program string not completed\n\n".to_string()), run(b"["));
}

#[test]
fn comments_and_strings() {
    assert_eq!(("ab\n".to_string(), "".to_string()), run(b"[ab]p # a comment"));
    assert_eq!(("3\n".to_string(), "".to_string()), run(b"1 2 # add\n+p"));
}

#[test]
fn test_input_radix() {
    let mut vm = VM::default();
    assert!(vm.set_input_radix(decimal("10")).is_ok());
}

#[test]
fn test_input_radix_fail() {
    let mut vm = VM::default();
    assert!(vm.set_input_radix(decimal("50")).is_err());
}

#[test]
fn test_output_radix() {
    let mut vm = VM::default();
    assert!(vm.set_output_radix(decimal("10")).is_ok());
}

#[test]
fn test_output_radix_fail() {
    let mut vm = VM::default();
    assert!(vm.set_output_radix(decimal("1")).is_err());
}

#[test]
fn test_precision() {
    let mut vm = VM::default();
    assert!(vm.set_precision(decimal("10")).is_ok());
}

#[test]
fn vm_states_report_returns() {
    assert_eq!(2, VMState::TerminatingReturn.stack_unwind());
    assert_eq!(7, VMState::NonTerminatingReturn(7).stack_unwind());
    assert_eq!("stack empty", VMState::StackError(DCError::StackEmpty).message());
    assert_eq!(ReturnState::Done, ReturnState::NonTerminatingReturn(0).next());
    assert_eq!(ReturnState::NonTerminatingReturn(2), ReturnState::NonTerminatingReturn(3).next());
    assert_eq!(ReturnState::TerminatingReturnEnclosing, ReturnState::TerminatingReturn.next());
    assert!(!ReturnState::Done.terminates_exec());
    assert_eq!(ReturnState::Done, ReturnState::default());
    assert_eq!(VMState::Continue, VMState::from(ReturnState::Done));
    assert_eq!(ReturnState::TerminatingReturn, ReturnState::from(VMState::TerminatingReturn));
}

fn stack_of(values: &[&str]) -> DCStack {
    let mut s = DCStack::new();
    for v in values {
        s.push(MemoryCell::Num(decimal(v)));
    }
    s
}

#[test]
fn test_to_string_with_base() {
    assert_eq!(b"10.2".to_vec(), MemoryCell::from_numstring("10.2").unwrap().to_str_radix(10));
}

#[test]
fn test_is_num() {
    assert!(MemoryCell::Num(Decimal::from_u64(3)).is_num());
    assert!(!MemoryCell::Str(Vec::from("a")).is_num());
}

#[test]
fn test_stack_empty_pop_num() {
    let mut s: DCStack = DCStack::new();
    assert_eq!(DCError::StackEmpty, s.pop_num().unwrap_err());
}

#[test]
fn test_stack_pop_num_num() {
    let mut s = stack_of(&["0"]);
    assert_eq!("0", text_of(&s.pop_num().expect("i should not be empty")));
    assert!(s.is_empty());
}

#[test]
fn test_push_pop() {
    let mut s: DCStack = DCStack::new();
    s.push(MemoryCell::Num(decimal(&format!("{}", 10.22f64))));
    let bd = s.pop_num().expect("was expecting to get a number");
    assert_eq!("10.22", text_of(&bd));
}

#[test]
fn test_dup() {
    let mut s = stack_of(&["10"]);
    assert_eq!(Ok(()), s.dup());
    assert_eq!(2, s.len());
}

#[test]
fn test_dup_empty() {
    let mut s = DCStack::new();
    assert_eq!(Err(DCError::StackEmpty), s.dup());
}

#[test]
fn test_swap_empty() {
    let mut s = DCStack::new();
    assert_eq!(Err(DCError::StackEmpty), s.swap());
}

#[test]
fn test_swap_one() {
    let mut s = stack_of(&["10"]);
    assert_eq!(Err(DCError::StackEmpty), s.swap());
}

#[test]
fn test_swap() {
    let mut s = stack_of(&["10", "20"]);
    assert_eq!(Ok(()), s.swap());
    assert_eq!(2, s.len());
    let a = s.pop_num().unwrap();
    let b = s.pop_num().unwrap();
    assert_eq!("20", text_of(&b));
    assert_eq!("10", text_of(&a));
}

#[test]
fn test_clear() {
    let mut s = stack_of(&["10"]);
    assert_eq!(Ok(()), s.clear());
    assert_eq!(0, s.len());
}

#[test]
fn test_clear_empty() {
    let mut s = DCStack::new();
    assert_eq!(Ok(()), s.clear());
    assert_eq!(0, s.len());
}

#[test]
fn stack_numbers_and_strings() {
    let mut s = DCStack::new();
    s.push_str(b"abc");
    assert_eq!(Err(DCError::NonNumericValue), s.pop_num().map(|_| ()));
    assert_eq!(b"abc".to_vec(), s.pop_str().unwrap());
    s.push_num(7);
    assert_eq!(Err(DCError::NonStringValue), s.pop_str().map(|_| ()));
    assert_eq!(Ok(()), s.push_bytes_as_num(b"12", b"50", 10));
    let mut out = Vec::new();
    s.write_to(&mut out, 10);
    assert_eq!(b"12.50\n7\n".to_vec(), out);
    assert_eq!(Ok(()), s.binary_apply_and_consume_tos(|a: &Decimal, b: &Decimal| {
        let sum = String::from_utf8(MemoryCell::Num(a.clone()).to_str_radix(10)).unwrap()
            + "|" + &String::from_utf8(MemoryCell::Num(b.clone()).to_str_radix(10)).unwrap();
        Decimal::from_u64(sum.len() as u64)
    }));
    assert_eq!("7", text_of(&s.pop_num().unwrap()));
}

#[test]
fn numbers_print_in_other_radixes() {
    assert_eq!(b"ff".to_vec(), MemoryCell::Num(decimal("255")).to_str_radix(16));
    assert_eq!(b"-11".to_vec(), MemoryCell::Num(decimal("-3")).to_str_radix(2));
    assert_eq!(b"1.f".to_vec(), MemoryCell::Num(decimal("3.1")).to_str_radix(16));
    assert_eq!(b"0.05".to_vec(), MemoryCell::Num(decimal(".05")).to_str_radix(10));
    assert_eq!(b"-1.5".to_vec(), MemoryCell::Num(decimal("-1.5")).to_str_radix(10));
}

#[test]
fn decimals_read_literals() {
    assert!(Decimal::from_literal(b"").is_none());
    assert!(Decimal::from_literal(b".").is_none());
    assert!(Decimal::from_literal(b"1.").is_none());
    assert!(Decimal::from_literal(b"1e5").is_none());
    assert_eq!(2, decimal("1.50").scale());
    assert_eq!(b"-150".to_vec(), decimal("-1.50").mantissa_text().to_vec());
    assert!(decimal("0.000").is_zero());
    assert!(!decimal("0.001").is_zero());
}

#[test]
fn parse_reads_instructions() {
    assert_eq!(Ok(vec![]), parse(b""));
    assert_eq!(Ok(vec![Instruction::Nop]), parse(b"\0"));
    assert_eq!(Ok(vec![Instruction::PrintLN]), parse(b"p"));
    assert_eq!(Ok(vec![Instruction::Num(b"0", b"")]), parse(b"0."));
    assert_eq!(Ok(vec![Instruction::Num(b"", b"0")]), parse(b".0"));
    assert_eq!(Ok(vec![Instruction::Num(b"132763", b"")]), parse(b"132763"));
    assert_eq!(Ok(vec![Instruction::Num(b"", b""), Instruction::Num(b"", b"")]), parse(b".."));
    assert_eq!(Ok(vec![Instruction::Num(b"0", b"0")]), parse(b"0.0"));
    assert_eq!(Ok(vec![Instruction::Num(b"1", b""), Instruction::Num(b"1", b"")]), parse(b"1 1"));
    assert_eq!(Ok(vec![Instruction::RegisterOperation(RegisterOperationType::Load, b'a')]), parse(b"la"));
    assert_eq!(Ok(vec![Instruction::RegisterOperation(RegisterOperationType::TosLeExecute, b'a')]), parse(b"!<a"));
    assert_eq!(Ok(vec![Instruction::RegisterOperation(RegisterOperationType::TosGeExecute, b'a')]), parse(b"!>a"));
    assert_eq!(Ok(vec![Instruction::RegisterOperation(RegisterOperationType::TosNeExecute, b'a')]), parse(b"!=a"));
    assert_eq!(Ok(vec![Instruction::System(b"a"), Instruction::Num(b"10", b"")]), parse(b"!a\n10"));
    assert_eq!(Ok(vec![Instruction::RegisterOperation(RegisterOperationType::TosLtExecute, b'>')]), parse(b"<>"));
    assert_eq!(Ok(vec![Instruction::Str(b"aa"), Instruction::Num(b"3", b"")]), parse(b"[aa]3"));
    assert_eq!(Ok(vec![Instruction::Str(b"!aa\n")]), parse(b"[!aa\n]"));
    assert_eq!(Ok(vec![Instruction::Str(b"aa")]), parse(b"[aa"));
    assert_eq!(Ok(vec![Instruction::Num(b"10", b""), Instruction::Comment(b" foo 20")]), parse(b"10 # foo 20"));
    assert_eq!(
        Ok(vec![Instruction::Num(b"10", b""), Instruction::Comment(b" foo"), Instruction::Num(b"20", b"")]),
        parse(b"10 # foo\n20")
    );
    assert_eq!(Ok(vec![Instruction::ExecuteTos]), parse(b"x"));
    assert_eq!(Ok(vec![Instruction::ReturnN]), parse(b"Q"));
}

#[test]
fn parse_stops_on_errors() {
    let text = b"1\x01p";
    let e = parse(text).unwrap_err();
    assert_eq!(1, e.position);
    assert_eq!(ParserErrorType::InvalidCharacter(1), e.error_type);
    assert_eq!(vec![Instruction::Num(b"1", b"")], e.program.instructions);
    assert_eq!(b"p", e.unparsed);
    assert_eq!(b"invalid character \x01 at position 1\n".to_vec(), e.message());
    let e: ParserError = parse(b"s").unwrap_err();
    assert_eq!(ParserErrorType::EOP("was expecting a register".to_string()), e.error_type);
    assert_eq!(b"end of program was expecting a register\n".to_vec(), e.message());
    let e = parse(b"\xff").unwrap_err();
    assert_eq!("invalid character \u{ff} at position 0\n".as_bytes().to_vec(), e.message());
}

#[test]
fn instructions_write_their_text() {
    assert_eq!(b"12.5".to_vec(), Instruction::Num(b"12", b"5").to_program_text());
    assert_eq!(b"[ab]".to_vec(), Instruction::Str(b"ab").to_program_text());
    assert_eq!(b"sa".to_vec(), Instruction::RegisterOperation(RegisterOperationType::Store, b'a').to_program_text());
    assert_eq!(b"!ls\n".to_vec(), Instruction::System(b"ls").to_program_text());
    let mut program = rdc::instructions::Program::default();
    program.push(Instruction::Add);
    program.push(Instruction::PrintLN);
    assert_eq!(b"`+p`".to_vec(), program.to_program_text());
}

#[test]
fn command_lines_name_programs() {
    let args: Vec<Vec<u8>> = vec![b"-e".to_vec(), b"10p".to_vec(), b"x.dc".to_vec(), b"--file".to_vec(), b"f.dc".to_vec()];
    assert_eq!(
        Invocation::Run(vec![ProgramSource::Text(b"10p".to_vec()), ProgramSource::File(b"f.dc".to_vec())]),
        dc(&args)
    );
    assert_eq!(Invocation::Exit(1), dc(&[b"-e".to_vec()]));
    assert_eq!(Invocation::Exit(0), dc(&[b"-e".to_vec(), b"1".to_vec(), b"--help".to_vec()]));
    assert_eq!(Invocation::Exit(0), dc(&[b"-v".to_vec()]));
    assert_eq!(Invocation::Run(vec![]), dc(&[]));
}

#[test]
fn a_vm_without_roots_is_the_default() {
    let mut vm: VM<NoSquareRoot> = VM::new(NoSquareRoot);
    assert_eq!(ReturnState::TerminatingReturn, vm.execute(b"1pq2p"));
    let (out, err) = vm.sinks();
    assert_eq!(b"1\n".to_vec(), out);
    assert!(err.is_empty());
}

#[test]
fn empty_string() {
    assert_eq!(Ok(vec![Instruction::Str(b"")]), parse(b"[]").map_err(|_| ()));
    assert_eq!(("1\n\n".to_string(), String::new()), run(b"[]zf"));
}

#[test]
fn remainder_at_scales_too_far_apart_is_refused() {
    let (out, err) = run(b"9223372036854775808k 0 1 / 3 % p");
    assert!(err.contains("internal conversion error"), "{}", err);
    assert_eq!("3\n", out);
}


#[test]
fn dividing_zero_at_the_largest_scale_gives_zero() {
    let (out, err) = run(b"9223372036854775807k 0 1 / 10 / 2k 1 / p");
    assert_eq!(String::new(), err);
    assert_eq!("0.00\n", out);
}
