use rdc::dcnumber::traits::FromBytes;
use rdc::dcnumber::unsigned::UnsignedDCNumber;
use rdc::dcstack::{DCStack, MemoryCell};
use rdc::decimal::Decimal;
use rdc::instructions::{Instruction, RegisterOperationType};
use rdc::parse::parse;
use rdc::vm::{ReturnState, VMState, VM};

fn run(vm: &mut VM<rdc::vm::NoSquareRoot>, program: &[u8]) -> ReturnState {
    vm.execute(program)
}

#[test]
fn written_instructions_read_back() {
    let instructions = vec![
        Instruction::Num(b"12", b"5"),
        Instruction::Add,
        Instruction::Str(b"ab"),
        Instruction::RegisterOperation(RegisterOperationType::Store, b'a'),
        Instruction::RegisterOperation(RegisterOperationType::TosNeExecute, b'b'),
        Instruction::System(b"ls"),
        Instruction::Comment(b" c"),
        Instruction::Num(b"3", b""),
        Instruction::ExecuteTos,
    ];
    let mut text = Vec::new();
    for i in &instructions {
        text.extend(i.to_program_text());
    }
    assert_eq!(b"12.5+[ab]sa!=b!ls\n# c\n3x".to_vec(), text);
    assert_eq!(Ok(instructions), parse(&text));
}

#[test]
fn greater_or_equal_is_written_as_the_other_negation() {
    let text = Instruction::RegisterOperation(RegisterOperationType::TosGeExecute, b'a').to_program_text();
    assert_eq!(b"!<a".to_vec(), text);
    assert_eq!(Ok(vec![Instruction::RegisterOperation(RegisterOperationType::TosLeExecute, b'a')]), parse(&text));
}

#[test]
fn running_only_appends() {
    let mut vm = VM::default();
    run(&mut vm, b"1p x");
    run(&mut vm, b"2p [a]+");
    let (out, err) = vm.sinks();
    assert_eq!(b"1\n2\n".to_vec(), out);
    assert_eq!(b"dc: non string value\ndc: non numeric value\n".to_vec(), err);
}

#[test]
fn swapping_twice_restores_the_stack() {
    let mut s = DCStack::new();
    s.push_num(1);
    s.push_str(b"two");
    assert_eq!(Ok(()), s.swap());
    assert_eq!(Ok(()), s.swap());
    assert_eq!(b"two".to_vec(), s.pop_str().unwrap());
    assert_eq!(b"1".to_vec(), MemoryCell::Num(s.pop_num().unwrap()).to_str_radix(10));
}

#[test]
fn returns_are_spent_after_their_levels() {
    let r = ReturnState::NonTerminatingReturn(2);
    assert_eq!(ReturnState::NonTerminatingReturn(1), r.next());
    assert_eq!(ReturnState::NonTerminatingReturn(0), r.next().next());
    assert_eq!(ReturnState::Done, r.next().next().next());
    assert_eq!(b"NonTerminatingReturn(2)".to_vec(), r.to_text());
    assert_eq!(b"Done".to_vec(), ReturnState::Done.to_text());
    assert_eq!(ReturnState::TerminatingReturn, ReturnState::from(VMState::from(ReturnState::TerminatingReturn)));
}

fn output_of(program: &[u8]) -> String {
    let mut vm = VM::default();
    run(&mut vm, program);
    String::from_utf8(vm.sinks().0).unwrap()
}

#[test]
fn sums_and_differences_are_exact() {
    assert_eq!("3.75\n", output_of(b"1.5 2.25+p"));
    assert_eq!("1.0\n", output_of(b"0.5 0.5+p"));
    assert_eq!("0.3\n", output_of(b"10.5 10.2-p"));
    assert_eq!("2.25\n", output_of(b"1.5 1.5*p"));
    assert_eq!("1\n", output_of(b"7 2%p"));
    assert_eq!("0.333\n", output_of(b"3k 1 3/p"));
}

#[test]
fn numbers_print_as_written() {
    assert_eq!("10.2\n", output_of(b"10.2p"));
    assert_eq!("0.050\n", output_of(b"0.050p"));
    assert_eq!("0.000\n", output_of(b"0.000p"));
    assert_eq!("7\n", output_of(b"007p"));
    assert_eq!("0.5\n", output_of(b".5p"));
}

#[test]
fn other_texts_are_read_as_bigdecimal_reads_them() {
    let cell = MemoryCell::from_string_radix("1e2", 10).unwrap();
    assert_eq!(b"100".to_vec(), cell.to_str_radix(10));
    assert!(MemoryCell::from_string_radix("1", 16).is_none());
    assert!(MemoryCell::from_numstring("x").is_none());
    assert!(Decimal::parse_bytes(b"-2.50", 10).is_some());
}

#[test]
fn stacks_change_their_top_in_place() {
    let mut s = DCStack::new();
    assert!(s.peek_mut().is_err());
    s.push_num(5);
    if let Ok(top) = s.peek_mut() {
        *top = MemoryCell::Str(b"five".to_vec());
    }
    assert_eq!(b"five".to_vec(), s.pop_str().unwrap());
    s.push_num(2);
    assert_eq!(Ok(()), s.apply_tos_num(|n: &Decimal| n.clone()));
    let mut cell = MemoryCell::Num(Decimal::from_u64(2));
    cell.add_assign(MemoryCell::Num(Decimal::from_u64(3)));
    assert_eq!(b"5".to_vec(), cell.to_str_radix(10));
    let mut text = MemoryCell::Str(b"a".to_vec());
    text.add_assign(MemoryCell::Num(Decimal::from_u64(3)));
    assert_eq!(b"a".to_vec(), text.to_str_radix(10));
}

#[test]
fn programs_without_returns_end_done() {
    let mut vm = VM::default();
    assert_eq!(ReturnState::Done, run(&mut vm, b"1 2 + p 3 0 / [a] 1 + d f"));
    let mut vm = VM::default();
    assert_eq!(ReturnState::TerminatingReturn, run(&mut vm, b"q"));
}

#[test]
fn a_parse_error_stands_where_it_says() {
    let text = b"1 2 +\x01 p";
    match parse(text) {
        Err(e) => {
            assert_eq!(5, e.position);
            assert_eq!(rdc::parse::ParserErrorType::InvalidCharacter(text[5]), e.error_type);
            assert_eq!(Ok(e.program.instructions.clone()), parse(&text[..e.position]));
        },
        Ok(_) => panic!("the text holds an invalid character"),
    }
    match parse(b"1 [ab") {
        Ok(_) => {},
        Err(e) => panic!("an unended string is kept: {:?}", e.position),
    }
    match parse(b"1 s") {
        Err(e) => assert_eq!(3, e.position),
        Ok(_) => panic!("a register is missing"),
    }
}

#[test]
fn decimal_text_reads_as_its_value() {
    let read = |t: &str| UnsignedDCNumber::from_bytes(t.as_bytes()).expect(t);
    assert_eq!(read("0.5"), read("00.5"));
    assert_eq!(read("10"), read("10.0"));
    assert_eq!(read("0"), read("0.0"));
    assert_eq!(read("0"), read("."));
    assert_eq!("0.5", read("00.50").to_string());
}

#[test]
fn every_return_is_spent() {
    let r = ReturnState::TerminatingReturn;
    assert_eq!(ReturnState::TerminatingReturnEnclosing, r.next());
    assert_eq!(ReturnState::Done, r.next().next().next());
    assert_eq!(ReturnState::Done, ReturnState::TerminatingReturnEnclosing.next().next());
    assert_eq!(ReturnState::NonTerminatingReturn(1), ReturnState::NonTerminatingReturn(2).next());
    assert_eq!(ReturnState::Done, ReturnState::NonTerminatingReturn(2).next().next().next());
    assert_eq!(ReturnState::Done, ReturnState::Done.next());
}

