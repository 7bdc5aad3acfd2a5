//! The instructions of a `dc` program.
use vstd::prelude::*;

verus! {

pub type Register = u8;

/// What an instruction that names a register does with it.
#[derive(Copy, Clone, Debug, PartialEq, Eq, Structural)]
pub enum RegisterOperationType {
    Store,
    Load,
    StoreStack,
    LoadStack,
    TosGeExecute,
    TosGtExecute,
    TosLeExecute,
    TosLtExecute,
    TosEqExecute,
    TosNeExecute,
    SetArray,
    GetArray,
}

/// One instruction; the ones that carry text borrow it from the program text.
#[derive(Copy, Clone, Debug, PartialEq)]
pub enum Instruction<'a> {
    Nop,
    Num(&'a [u8], &'a [u8]),
    Str(&'a [u8]),
    // print
    PrintLN,
    PrintPop,
    PrettyPrint,
    PrintStack,
    // arithmetic
    Add,
    Sub,
    Mul,
    Div,
    Mod,
    Divmod,
    Exp,
    Modexp,
    Sqrt,
    // stack
    Clear,
    Dup,
    Swap,
    // registers
    RegisterOperation(RegisterOperationType, Register),
    // parameters
    SetInputRadix,
    SetOutputRadix,
    SetPrecision,
    GetInputRadix,
    GetOutputRadix,
    GetPrecision,
    // string
    OpToString,
    ExecuteTos,
    ExecuteInput,
    ReturnCaller,
    ReturnN,
    // status enquiry
    Digits,
    FractionDigits,
    StackDepth,
    // miscellaneous
    System(&'a [u8]),
    Comment(&'a [u8]),
}

/// An instruction as a value: the instructions without operands are named by the command
/// character that stands for them.
pub enum InstructionView {
    Op(u8),
    Num(Seq<u8>, Seq<u8>),
    Str(Seq<u8>),
    Register(RegisterOperationType, u8),
    System(Seq<u8>),
    Comment(Seq<u8>),
}

/// The command characters of the instructions without operands; the character zero is the
/// instruction that does nothing.
pub open spec fn is_simple_command(c: u8) -> bool {
    c == 0 || c == 112 || c == 110 || c == 80 || c == 102 || c == 43 || c == 45 || c == 42 || c
        == 47 || c == 37 || c == 126 || c == 94 || c == 124 || c == 118 || c == 99 || c == 100
        || c == 114 || c == 105 || c == 111 || c == 107 || c == 73 || c == 79 || c == 75 || c
        == 97 || c == 120 || c == 63 || c == 113 || c == 81 || c == 90 || c == 88 || c == 122
}

impl<'a> View for Instruction<'a> {
    type V = InstructionView;

    open spec fn view(&self) -> InstructionView {
        match self {
            Instruction::Nop => InstructionView::Op(0),
            Instruction::Num(integer, fraction) => InstructionView::Num(integer@, fraction@),
            Instruction::Str(text) => InstructionView::Str(text@),
            Instruction::PrintLN => InstructionView::Op(112),
            Instruction::PrintPop => InstructionView::Op(110),
            Instruction::PrettyPrint => InstructionView::Op(80),
            Instruction::PrintStack => InstructionView::Op(102),
            Instruction::Add => InstructionView::Op(43),
            Instruction::Sub => InstructionView::Op(45),
            Instruction::Mul => InstructionView::Op(42),
            Instruction::Div => InstructionView::Op(47),
            Instruction::Mod => InstructionView::Op(37),
            Instruction::Divmod => InstructionView::Op(126),
            Instruction::Exp => InstructionView::Op(94),
            Instruction::Modexp => InstructionView::Op(124),
            Instruction::Sqrt => InstructionView::Op(118),
            Instruction::Clear => InstructionView::Op(99),
            Instruction::Dup => InstructionView::Op(100),
            Instruction::Swap => InstructionView::Op(114),
            Instruction::RegisterOperation(t, r) => InstructionView::Register(*t, *r),
            Instruction::SetInputRadix => InstructionView::Op(105),
            Instruction::SetOutputRadix => InstructionView::Op(111),
            Instruction::SetPrecision => InstructionView::Op(107),
            Instruction::GetInputRadix => InstructionView::Op(73),
            Instruction::GetOutputRadix => InstructionView::Op(79),
            Instruction::GetPrecision => InstructionView::Op(75),
            Instruction::OpToString => InstructionView::Op(97),
            Instruction::ExecuteTos => InstructionView::Op(120),
            Instruction::ExecuteInput => InstructionView::Op(63),
            Instruction::ReturnCaller => InstructionView::Op(113),
            Instruction::ReturnN => InstructionView::Op(81),
            Instruction::Digits => InstructionView::Op(90),
            Instruction::FractionDigits => InstructionView::Op(88),
            Instruction::StackDepth => InstructionView::Op(122),
            Instruction::System(command) => InstructionView::System(command@),
            Instruction::Comment(comment) => InstructionView::Comment(comment@),
        }
    }
}

/// The instruction that a command character without operands stands for.
pub fn simple_instruction<'a>(c: u8) -> (i: Instruction<'a>)
    requires
        is_simple_command(c),
    ensures
        i@ == InstructionView::Op(c),
{
    match c {
        0 => Instruction::Nop,
        112 => Instruction::PrintLN,
        110 => Instruction::PrintPop,
        80 => Instruction::PrettyPrint,
        102 => Instruction::PrintStack,
        43 => Instruction::Add,
        45 => Instruction::Sub,
        42 => Instruction::Mul,
        47 => Instruction::Div,
        37 => Instruction::Mod,
        126 => Instruction::Divmod,
        94 => Instruction::Exp,
        124 => Instruction::Modexp,
        118 => Instruction::Sqrt,
        99 => Instruction::Clear,
        100 => Instruction::Dup,
        114 => Instruction::Swap,
        105 => Instruction::SetInputRadix,
        111 => Instruction::SetOutputRadix,
        107 => Instruction::SetPrecision,
        73 => Instruction::GetInputRadix,
        79 => Instruction::GetOutputRadix,
        75 => Instruction::GetPrecision,
        97 => Instruction::OpToString,
        120 => Instruction::ExecuteTos,
        63 => Instruction::ExecuteInput,
        113 => Instruction::ReturnCaller,
        81 => Instruction::ReturnN,
        90 => Instruction::Digits,
        88 => Instruction::FractionDigits,
        _ => Instruction::StackDepth,
    }
}

/// The characters that introduce an instruction on a register.
pub open spec fn register_prefix(t: RegisterOperationType) -> Seq<u8> {
    match t {
        RegisterOperationType::Store => seq![115u8],
        RegisterOperationType::Load => seq![108u8],
        RegisterOperationType::StoreStack => seq![83u8],
        RegisterOperationType::LoadStack => seq![76u8],
        RegisterOperationType::TosGeExecute => seq![33u8, 60u8],
        RegisterOperationType::TosGtExecute => seq![62u8],
        RegisterOperationType::TosLeExecute => seq![33u8, 62u8],
        RegisterOperationType::TosLtExecute => seq![60u8],
        RegisterOperationType::TosEqExecute => seq![61u8],
        RegisterOperationType::TosNeExecute => seq![33u8, 61u8],
        RegisterOperationType::SetArray => seq![58u8],
        RegisterOperationType::GetArray => seq![59u8],
    }
}

/// How an instruction is written as program text.
pub open spec fn instruction_text(i: InstructionView) -> Seq<u8> {
    match i {
        InstructionView::Op(c) => seq![c],
        InstructionView::Num(integer, fraction) => if fraction.len() > 0 {
            integer + seq![46u8] + fraction
        } else {
            integer
        },
        InstructionView::Str(text) => seq![91u8] + text + seq![93u8],
        InstructionView::Register(t, r) => register_prefix(t) + seq![r],
        InstructionView::System(command) => seq![33u8] + command + seq![10u8],
        InstructionView::Comment(comment) => seq![35u8] + comment + seq![10u8],
    }
}

/// Appends `text` to `out`.
pub(crate) fn append_bytes(out: &mut Vec<u8>, text: &[u8])
    ensures
        final(out)@ == old(out)@ + text@,
{
    let mut i: usize = 0;
    while i < text.len()
        invariant
            i <= text@.len(),
            out@ == old(out)@ + text@.subrange(0, i as int),
        decreases text@.len() - i,
    {
        out.push(text[i]);
        i = i + 1;
        assert(out@ =~= old(out)@ + text@.subrange(0, i as int));
    }
    assert(text@.subrange(0, i as int) =~= text@);
}

/// The characters of a register prefix.
fn register_prefix_bytes(t: RegisterOperationType) -> (r: Vec<u8>)
    ensures
        r@ == register_prefix(t),
{
    let r = match t {
        RegisterOperationType::Store => vec![115u8],
        RegisterOperationType::Load => vec![108u8],
        RegisterOperationType::StoreStack => vec![83u8],
        RegisterOperationType::LoadStack => vec![76u8],
        RegisterOperationType::TosGeExecute => vec![33u8, 60u8],
        RegisterOperationType::TosGtExecute => vec![62u8],
        RegisterOperationType::TosLeExecute => vec![33u8, 62u8],
        RegisterOperationType::TosLtExecute => vec![60u8],
        RegisterOperationType::TosEqExecute => vec![61u8],
        RegisterOperationType::TosNeExecute => vec![33u8, 61u8],
        RegisterOperationType::SetArray => vec![58u8],
        RegisterOperationType::GetArray => vec![59u8],
    };
    assert(r@ =~= register_prefix(t));
    r
}

impl<'a> Instruction<'a> {
    /// Appends the program text of the instruction to `out`.
    pub fn write_text(&self, out: &mut Vec<u8>)
        ensures
            final(out)@ == old(out)@ + instruction_text(self@),
    {
        match self {
            Instruction::Num(integer, fraction) => {
                append_bytes(out, integer);
                if fraction.len() > 0 {
                    out.push(46u8);
                    append_bytes(out, fraction);
                }
            },
            Instruction::Str(text) => {
                out.push(91u8);
                append_bytes(out, text);
                out.push(93u8);
            },
            Instruction::RegisterOperation(t, r) => {
                let prefix = register_prefix_bytes(*t);
                append_bytes(out, prefix.as_slice());
                out.push(*r);
            },
            Instruction::System(command) => {
                out.push(33u8);
                append_bytes(out, command);
                out.push(10u8);
            },
            Instruction::Comment(comment) => {
                out.push(35u8);
                append_bytes(out, comment);
                out.push(10u8);
            },
            _ => {
                let c = self.command_char();
                out.push(c);
            },
        }
        assert(out@ =~= old(out)@ + instruction_text(self@));
    }

    /// The command character of an instruction without operands.
    fn command_char(&self) -> (c: u8)
        requires
            self@ is Op,
        ensures
            self@ == InstructionView::Op(c),
    {
        match self {
            Instruction::Nop => 0,
            Instruction::PrintLN => 112,
            Instruction::PrintPop => 110,
            Instruction::PrettyPrint => 80,
            Instruction::PrintStack => 102,
            Instruction::Add => 43,
            Instruction::Sub => 45,
            Instruction::Mul => 42,
            Instruction::Div => 47,
            Instruction::Mod => 37,
            Instruction::Divmod => 126,
            Instruction::Exp => 94,
            Instruction::Modexp => 124,
            Instruction::Sqrt => 118,
            Instruction::Clear => 99,
            Instruction::Dup => 100,
            Instruction::Swap => 114,
            Instruction::SetInputRadix => 105,
            Instruction::SetOutputRadix => 111,
            Instruction::SetPrecision => 107,
            Instruction::GetInputRadix => 73,
            Instruction::GetOutputRadix => 79,
            Instruction::GetPrecision => 75,
            Instruction::OpToString => 97,
            Instruction::ExecuteTos => 120,
            Instruction::ExecuteInput => 63,
            Instruction::ReturnCaller => 113,
            Instruction::ReturnN => 81,
            Instruction::Digits => 90,
            Instruction::FractionDigits => 88,
            _ => 122,
        }
    }

    /// The program text of the instruction, as its `Display` writes it.
    pub fn to_program_text(&self) -> (r: Vec<u8>)
        ensures
            r@ == instruction_text(self@),
    {
        let mut out: Vec<u8> = Vec::new();
        self.write_text(&mut out);
        assert(out@ =~= instruction_text(self@));
        out
    }
}

/// The text of a sequence of instructions, one after the other.
pub open spec fn instructions_text(s: Seq<InstructionView>) -> Seq<u8>
    decreases s.len(),
{
    if s.len() == 0 {
        Seq::empty()
    } else {
        instructions_text(s.drop_last()) + instruction_text(s.last())
    }
}

/// The instructions as values.
pub open spec fn instruction_views<'a>(s: Seq<Instruction<'a>>) -> Seq<InstructionView> {
    s.map_values(|i: Instruction<'a>| i@)
}

/// A sequence of instructions.
#[derive(Clone, Debug, PartialEq, Default)]
pub struct Program<'a> {
    pub instructions: Vec<Instruction<'a>>,
}

impl<'a> Program<'a> {
    /// Appends an instruction.
    pub fn push(&mut self, instruction: Instruction<'a>)
        ensures
            final(self).instructions@ == old(self).instructions@.push(instruction),
    {
        self.instructions.push(instruction)
    }

    /// The program text between backquotes, as its `Display` writes it.
    pub fn to_program_text(&self) -> (r: Vec<u8>)
        ensures
            r@ == seq![96u8] + instructions_text(instruction_views(self.instructions@)) + seq![96u8],
    {
        let mut out: Vec<u8> = Vec::new();
        out.push(96u8);
        let mut i: usize = 0;
        while i < self.instructions.len()
            invariant
                i <= self.instructions@.len(),
                out@ == seq![96u8] + instructions_text(
                    instruction_views(self.instructions@.subrange(0, i as int)),
                ),
            decreases self.instructions@.len() - i,
        {
            self.instructions[i].write_text(&mut out);
            proof {
                let views = instruction_views(self.instructions@.subrange(0, i + 1));
                assert(views.drop_last() =~= instruction_views(
                    self.instructions@.subrange(0, i as int),
                ));
            }
            i = i + 1;
        }
        proof {
            assert(self.instructions@.subrange(0, i as int) =~= self.instructions@);
        }
        out.push(96u8);
        out
    }
}

} // verus!
