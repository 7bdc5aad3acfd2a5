//! What single commands of the machine do, and how the command line is read, stated over
//! their inputs and results.
use vstd::prelude::*;
use vstd::string::StringSliceAdditionalSpecFns;
use crate::dcnumber::digits::pow10;
use crate::dcstack::CellView;
use crate::decimal::{ascii_zeros, int_radix_text, nat_radix_text, plain_text, radix_char, DecimalValue};
use crate::numtext::nat_text;
use crate::instructions::InstructionView;
use crate::vm::{eval_list, report, return_of_state, run, step, ReturnState, VMModel, VMState};
use crate::parse::{parse_from, ParseOutcome};
use crate::{invocation_from, InvocationView, SourceView};

verus! {

/// The number `n`, written at scale zero.
pub open spec fn integer_number(n: int) -> CellView {
    CellView::Num(DecimalValue { mantissa: n, scale: 0 })
}

/// The state with the top value taken off the stack.
pub open spec fn top_popped(s: VMModel) -> VMModel {
    VMModel { stack: s.stack.drop_last(), ..s }
}

/// `i` and `o` accept exactly the integers from 2 to 16: such a number sets the input or the
/// output radix to itself, and is popped; any other integer is popped and refused.
pub proof fn law_radix_commands_take_two_to_sixteen(
    roots: spec_fn(nat) -> Option<DecimalValue>,
    level: nat,
    s: VMModel,
    n: int,
)
    requires
        s.stack.len() > 0,
        s.stack.last() == integer_number(n),
    ensures
        2 <= n <= 16 ==> step(roots, level, s, InstructionView::Op(111)) == (VMModel {
            output_radix: n as u32,
            ..top_popped(s)
        }, VMState::Continue),
        2 <= n <= 16 ==> step(roots, level, s, InstructionView::Op(105)) == (VMModel {
            input_radix: n as u32,
            ..top_popped(s)
        }, VMState::Continue),
        !(2 <= n <= 16) ==> step(roots, level, s, InstructionView::Op(111)) == (
            top_popped(s),
            VMState::InvalidOutputRadix,
        ),
        !(2 <= n <= 16) ==> step(roots, level, s, InstructionView::Op(105)) == (
            top_popped(s),
            VMState::InvalidInputRadix,
        ),
{
}

/// `c` empties the stack, whatever it held, and changes nothing else.
pub proof fn law_clear_empties_the_stack(
    roots: spec_fn(nat) -> Option<DecimalValue>,
    level: nat,
    s: VMModel,
)
    ensures
        step(roots, level, s, InstructionView::Op(99)) == (VMModel {
            stack: Seq::<CellView>::empty(),
            ..s
        }, VMState::Continue),
{
}

/// `Q` on a whole number `n` that fits in a `u64` pops it and returns from `n` levels of
/// macros: the return carries that very count.
pub proof fn law_q_returns_its_count(
    roots: spec_fn(nat) -> Option<DecimalValue>,
    level: nat,
    s: VMModel,
    n: int,
)
    requires
        0 <= n <= u64::MAX,
        s.stack.len() > 0,
        s.stack.last() == integer_number(n),
    ensures
        step(roots, level, s, InstructionView::Op(81)) == (top_popped(s), VMState::NonTerminatingReturn(
            n as u64,
        )),
{
    assert(pow10(0) == 1);
}

/// `-f` and `--file` followed by an argument ask for the file that the argument names, and
/// `-e` and `--expression` for the argument as program text; reading goes on after the
/// argument.
pub proof fn law_sources_from_the_command_line(args: Seq<Seq<u8>>, i: nat, sources: Seq<SourceView>)
    requires
        i + 1 < args.len(),
    ensures
        args[i as int] == "-f".spec_bytes() || args[i as int] == "--file".spec_bytes()
            ==> invocation_from(args, i, sources) == invocation_from(
            args,
            i + 2,
            sources.push(SourceView::File(args[i as int + 1])),
        ),
        args[i as int] == "-e".spec_bytes() || args[i as int] == "--expression".spec_bytes()
            ==> invocation_from(args, i, sources) == invocation_from(
            args,
            i + 2,
            sources.push(SourceView::Text(args[i as int + 1])),
        ),
{
    reveal_strlit("-f");
    reveal_strlit("--file");
    reveal_strlit("-e");
    reveal_strlit("--expression");
    vstd::string::is_ascii_spec_bytes("-f");
    vstd::string::is_ascii_spec_bytes("--file");
    vstd::string::is_ascii_spec_bytes("-e");
    vstd::string::is_ascii_spec_bytes("--expression");
    assert("-f".spec_bytes().len() == 2 && "-f".spec_bytes()[1] == 102);
    assert("--file".spec_bytes().len() == 6);
    assert("-e".spec_bytes().len() == 2 && "-e".spec_bytes()[1] == 101);
    assert("--expression".spec_bytes().len() == 12);
    if args[i as int] == "-f".spec_bytes() {
        assert(args[i as int] != "-e".spec_bytes());
        assert(args[i as int] != "--expression".spec_bytes());
    }
    if args[i as int] == "--file".spec_bytes() {
        assert(args[i as int] != "-e".spec_bytes());
        assert(args[i as int] != "--expression".spec_bytes());
    }
}

/// The value of a digit character in a radix up to 36: `0` to `9`, then `a` to `z`; other
/// characters are worth nothing as digits.
pub open spec fn digit_char_value(c: u8) -> int {
    if 48 <= c <= 57 {
        c - 48
    } else if 97 <= c <= 122 {
        c - 87
    } else {
        -1
    }
}

/// The value of the digit characters `t` read in the radix `r`.
pub open spec fn numeral_value(t: Seq<u8>, r: nat) -> int
    decreases t.len(),
{
    if t.len() == 0 {
        0
    } else {
        numeral_value(t.drop_last(), r) * r + digit_char_value(t.last())
    }
}

/// `t` writes the natural `n` in the radix `r`: digits of that radix only, no leading zero
/// unless it is the single digit `0`, and read back in `r` it is `n`.
pub open spec fn writes_natural(t: Seq<u8>, n: nat, r: nat) -> bool {
    &&& t.len() > 0
    &&& forall|k: int| 0 <= k < t.len() ==> 0 <= #[trigger] digit_char_value(t[k]) < r
    &&& (t[0] == 48 ==> t.len() == 1)
    &&& numeral_value(t, r) == n
}

/// `t` writes the integer `m` in the radix `r`: a minus sign before a negative one.
pub open spec fn writes_integer(t: Seq<u8>, m: int, r: nat) -> bool {
    if m < 0 {
        t.len() > 0 && t[0] == 45 && writes_natural(t.drop_first(), (-m) as nat, r)
    } else {
        writes_natural(t, m as nat, r)
    }
}

proof fn lemma_radix_char(d: nat)
    requires
        d < 36,
    ensures
        digit_char_value(radix_char(d)) == d,
        radix_char(d) == 48 <==> d == 0,
{
}

/// The text of a natural in a radix writes it.
proof fn lemma_nat_radix_text(n: nat, r: nat)
    requires
        2 <= r <= 36,
    ensures
        writes_natural(nat_radix_text(n, r), n, r),
    decreases n,
{
    let t = nat_radix_text(n, r);
    if n < r {
        lemma_radix_char(n);
        assert(t.drop_last() =~= Seq::<u8>::empty());
        assert(0 * (r as int) == 0);
        assert(numeral_value(t, r) == numeral_value(t.drop_last(), r) * r + digit_char_value(t.last()));
    } else {
        assert(n / r < n) by (nonlinear_arith)
            requires
                n >= r,
                r >= 2,
        ;
        assert(n / r >= 1) by (nonlinear_arith)
            requires
                n >= r,
                r >= 2,
        ;
        assert(n % r < r) by (nonlinear_arith)
            requires
                r >= 2,
        ;
        assert(n == (n / r) * r + n % r) by (nonlinear_arith)
            requires
                r >= 2,
        ;
        lemma_nat_radix_text(n / r, r);
        let u = nat_radix_text(n / r, r);
        lemma_radix_char(n % r);
        assert(t == u.push(radix_char(n % r)));
        assert(t.drop_last() =~= u);
        assert forall|k: int| 0 <= k < t.len() implies 0 <= #[trigger] digit_char_value(t[k]) < r by {
            if k < u.len() {
                assert(t[k] == u[k]);
            }
        }
        assert(t[0] == u[0]);
        assert(numeral_value(t, r) == numeral_value(u, r) * r + digit_char_value(t.last()));
        assert(t.last() == radix_char(n % r));
        if u.len() == 1 {
            assert(numeral_value(u, r) == numeral_value(u.drop_last(), r) * r + digit_char_value(
                u.last(),
            ));
            assert(u.drop_last() =~= Seq::<u8>::empty());
            assert(u[0] != 48);
        }
    }
}

/// Decimal text is the text in radix ten.
proof fn lemma_nat_text_is_radix_ten(n: nat)
    ensures
        nat_text(n) == nat_radix_text(n, 10),
    decreases n,
{
    if n >= 10 {
        lemma_nat_text_is_radix_ten(n / 10);
    }
}

/// `p` and `n` print a whole number in every output radix from 2 to 16: the digits of that
/// radix, which read back in it give the number, with a minus sign before a negative one, and
/// a newline; `p` keeps the number and `n` pops it.
pub proof fn law_integers_print_in_radix_two_to_sixteen(
    roots: spec_fn(nat) -> Option<DecimalValue>,
    level: nat,
    s: VMModel,
    m: int,
)
    requires
        2 <= s.output_radix <= 16,
        s.stack.len() > 0,
        s.stack.last() == integer_number(m),
    ensures
        ({
            let t = int_radix_text(m, s.output_radix as nat);
            &&& writes_integer(t, m, s.output_radix as nat)
            &&& step(roots, level, s, InstructionView::Op(112)) == (VMModel {
                output: s.output + t + seq![10u8],
                ..s
            }, VMState::Continue)
            &&& step(roots, level, s, InstructionView::Op(110)) == (VMModel {
                output: s.output + t + seq![10u8],
                ..top_popped(s)
            }, VMState::Continue)
        }),
{
    let r = s.output_radix as nat;
    if r == 10 {
        let v = DecimalValue { mantissa: m, scale: 0 };
        let a: nat = if m < 0 { (-m) as nat } else { m as nat };
        lemma_nat_text_is_radix_ten(a);
        assert(nat_text(a) + ascii_zeros(0) =~= nat_text(a));
        assert(plain_text(v) == int_radix_text(m, 10));
    }
    if m < 0 {
        lemma_nat_radix_text((-m) as nat, r);
        let t = int_radix_text(m, r);
        assert(t.drop_first() =~= nat_radix_text((-m) as nat, r));
    } else {
        lemma_nat_radix_text(m as nat, r);
    }
}

/// A program text of one command character reads as that command alone.
proof fn lemma_one_command_text(
    roots: spec_fn(nat) -> Option<DecimalValue>,
    level: nat,
    s: VMModel,
    c: u8,
)
    requires
        crate::instructions::is_simple_command(c),
        c != 32 && c != 10,
    ensures
        ({
            let (s1, st) = step(roots, level, s, InstructionView::Op(c));
            run(roots, level, s, seq![c]) == if st is Continue {
                (s1, ReturnState::Done)
            } else if st is TerminatingReturn || st is TerminatingReturnEnclosing
                || st is NonTerminatingReturn {
                (s1, return_of_state(st))
            } else {
                (report(s1, st), ReturnState::Done)
            }
        }),
{
    reveal_with_fuel(eval_list, 2);
    let t = seq![c];
    assert(parse_from(t, 1) == ParseOutcome::Complete(Seq::<InstructionView>::empty()));
    assert(seq![InstructionView::Op(c)] + Seq::<InstructionView>::empty() =~= seq![InstructionView::Op(c)]);
    assert(parse_from(t, 0) == ParseOutcome::Complete(seq![InstructionView::Op(c)]));
    let l = seq![InstructionView::Op(c)];
    assert(l.drop_first() =~= Seq::<InstructionView>::empty());
    assert(l.len() == 1 && l[0] == InstructionView::Op(c));
    assert(run(roots, level, s, t) == eval_list(roots, level, s, l));
    let (s1, st) = step(roots, level, s, InstructionView::Op(c));
    assert(eval_list(roots, level, s1, Seq::<InstructionView>::empty()) == (s1, ReturnState::Done));
    assert(eval_list(roots, level, report(s1, st), Seq::<InstructionView>::empty()) == (
        report(s1, st),
        ReturnState::Done,
    ));
}

/// The program `c` empties the stack, whatever it held, and runs to its end.
pub proof fn law_clear_program(roots: spec_fn(nat) -> Option<DecimalValue>, level: nat, s: VMModel)
    ensures
        run(roots, level, s, seq![99u8]) == (VMModel {
            stack: Seq::<CellView>::empty(),
            ..s
        }, ReturnState::Done),
{
    lemma_one_command_text(roots, level, s, 99);
    law_clear_empties_the_stack(roots, level, s);
    assert(seq![InstructionView::Op(99)].drop_first() =~= Seq::<InstructionView>::empty());
}

/// The programs `o` and `i` on a whole number from 2 to 16 set the output or input radix to
/// it, pop it, and run to their end.
pub proof fn law_radix_programs(
    roots: spec_fn(nat) -> Option<DecimalValue>,
    level: nat,
    s: VMModel,
    n: int,
)
    requires
        2 <= n <= 16,
        s.stack.len() > 0,
        s.stack.last() == integer_number(n),
    ensures
        run(roots, level, s, seq![111u8]) == (VMModel {
            output_radix: n as u32,
            ..top_popped(s)
        }, ReturnState::Done),
        run(roots, level, s, seq![105u8]) == (VMModel {
            input_radix: n as u32,
            ..top_popped(s)
        }, ReturnState::Done),
{
    lemma_one_command_text(roots, level, s, 111);
    lemma_one_command_text(roots, level, s, 105);
    law_radix_commands_take_two_to_sixteen(roots, level, s, n);
    assert(seq![InstructionView::Op(111)].drop_first() =~= Seq::<InstructionView>::empty());
    assert(seq![InstructionView::Op(105)].drop_first() =~= Seq::<InstructionView>::empty());
}

/// The program `Q` on a whole number `n` that fits in a `u64` pops it and returns from `n`
/// levels.
pub proof fn law_q_program(roots: spec_fn(nat) -> Option<DecimalValue>, level: nat, s: VMModel, n: int)
    requires
        0 <= n <= u64::MAX,
        s.stack.len() > 0,
        s.stack.last() == integer_number(n),
    ensures
        run(roots, level, s, seq![81u8]) == (top_popped(s), ReturnState::NonTerminatingReturn(
            n as u64,
        )),
{
    lemma_one_command_text(roots, level, s, 81);
    law_q_returns_its_count(roots, level, s, n);
}

/// The program `p` prints a whole number in every output radix from 2 to 16, as the digits
/// of that radix that read back to the number, and a newline.
pub proof fn law_print_program(roots: spec_fn(nat) -> Option<DecimalValue>, level: nat, s: VMModel, m: int)
    requires
        2 <= s.output_radix <= 16,
        s.stack.len() > 0,
        s.stack.last() == integer_number(m),
    ensures
        exists|t: Seq<u8>|
            writes_integer(t, m, s.output_radix as nat) && #[trigger] run(roots, level, s, seq![112u8])
                == (VMModel { output: s.output + t + seq![10u8], ..s }, ReturnState::Done),
{
    lemma_one_command_text(roots, level, s, 112);
    law_integers_print_in_radix_two_to_sixteen(roots, level, s, m);
    assert(seq![InstructionView::Op(112)].drop_first() =~= Seq::<InstructionView>::empty());
    let t = int_radix_text(m, s.output_radix as nat);
    assert(writes_integer(t, m, s.output_radix as nat));
}

/// `d` puts a copy of the top value on the stack; on an empty stack it reports an empty stack
/// and changes nothing.
pub proof fn law_duplicate(roots: spec_fn(nat) -> Option<DecimalValue>, level: nat, s: VMModel)
    ensures
        s.stack.len() > 0 ==> step(roots, level, s, InstructionView::Op(100)) == (VMModel {
            stack: s.stack.push(s.stack.last()),
            ..s
        }, VMState::Continue),
        s.stack.len() == 0 ==> step(roots, level, s, InstructionView::Op(100)) == (
            s,
            VMState::StackError(crate::dcstack::DCError::StackEmpty),
        ),
{
}

/// `r` exchanges the two top values and keeps the rest; with fewer than two values it reports
/// an empty stack and changes nothing.
pub proof fn law_swap(roots: spec_fn(nat) -> Option<DecimalValue>, level: nat, s: VMModel)
    ensures
        s.stack.len() >= 2 ==> ({
            let (t, st) = step(roots, level, s, InstructionView::Op(114));
            let n = s.stack.len();
            &&& st == VMState::Continue
            &&& t == VMModel { stack: t.stack, ..s }
            &&& t.stack.len() == n
            &&& t.stack[n - 1] == s.stack[n - 2]
            &&& t.stack[n - 2] == s.stack[n - 1]
            &&& forall|k: int| 0 <= k < n - 2 ==> #[trigger] t.stack[k] == s.stack[k]
        }),
        s.stack.len() < 2 ==> step(roots, level, s, InstructionView::Op(114)) == (
            s,
            VMState::StackError(crate::dcstack::DCError::StackEmpty),
        ),
{
}

/// `z` pushes the number of values on the stack; `I`, `O` and `K` push the input radix, the
/// output radix and the precision; `q` returns from the macro and its caller.
pub proof fn law_parameters_and_depth(roots: spec_fn(nat) -> Option<DecimalValue>, level: nat, s: VMModel)
    ensures
        step(roots, level, s, InstructionView::Op(122)) == (VMModel {
            stack: s.stack.push(integer_number(s.stack.len() as int)),
            ..s
        }, VMState::Continue),
        step(roots, level, s, InstructionView::Op(73)) == (VMModel {
            stack: s.stack.push(integer_number(s.input_radix as int)),
            ..s
        }, VMState::Continue),
        step(roots, level, s, InstructionView::Op(79)) == (VMModel {
            stack: s.stack.push(integer_number(s.output_radix as int)),
            ..s
        }, VMState::Continue),
        step(roots, level, s, InstructionView::Op(75)) == (VMModel {
            stack: s.stack.push(integer_number(s.precision as int)),
            ..s
        }, VMState::Continue),
        step(roots, level, s, InstructionView::Op(113)) == (s, VMState::TerminatingReturn),
{
}

/// `k` on a whole number from 2 that fits in a `u64` sets the precision to it and pops it.
pub proof fn law_precision(roots: spec_fn(nat) -> Option<DecimalValue>, level: nat, s: VMModel, n: int)
    requires
        2 <= n <= u64::MAX,
        s.stack.len() > 0,
        s.stack.last() == integer_number(n),
    ensures
        step(roots, level, s, InstructionView::Op(107)) == (VMModel {
            precision: n as u64,
            ..top_popped(s)
        }, VMState::Continue),
{
    assert(pow10(0) == 1);
}

/// `+` and `-` on two whole numbers replace them with their sum and their difference.
pub proof fn law_integer_sum_and_difference(
    roots: spec_fn(nat) -> Option<DecimalValue>,
    level: nat,
    s: VMModel,
    a: int,
    b: int,
)
    requires
        s.stack.len() >= 2,
        s.stack[s.stack.len() - 2] == integer_number(a),
        s.stack.last() == integer_number(b),
    ensures
        step(roots, level, s, InstructionView::Op(43)) == (VMModel {
            stack: s.stack.drop_last().drop_last().push(integer_number(a + b)),
            ..s
        }, VMState::Continue),
        step(roots, level, s, InstructionView::Op(45)) == (VMModel {
            stack: s.stack.drop_last().drop_last().push(integer_number(a - b)),
            ..s
        }, VMState::Continue),
{
    let x = DecimalValue { mantissa: a, scale: 0 };
    let y = DecimalValue { mantissa: b, scale: 0 };
    assert(pow10(0) == 1);
    assert(crate::decimal::aligned_mantissa(x, 0) == a * 1);
    assert(crate::decimal::aligned_mantissa(y, 0) == b * 1);
    assert(crate::decimal::decimal_sum(x, y) == DecimalValue { mantissa: a + b, scale: 0 });
    assert(crate::decimal::decimal_difference(x, y) == DecimalValue { mantissa: a - b, scale: 0 });
    assert(s.stack[s.stack.len() - 2] is Num);
}

/// A string instruction pushes its text as a string.
pub proof fn law_string_pushes_its_text(
    roots: spec_fn(nat) -> Option<DecimalValue>,
    level: nat,
    s: VMModel,
    t: Seq<u8>,
)
    ensures
        step(roots, level, s, InstructionView::Str(t)) == (VMModel {
            stack: s.stack.push(CellView::Str(t)),
            ..s
        }, VMState::Continue),
{
}

/// Decimal digits read in radix ten have their decimal value.
proof fn lemma_ascii_value_is_numeral_value(t: Seq<u8>)
    requires
        crate::numtext::all_ascii_digits(t),
    ensures
        crate::numtext::ascii_value(t) == numeral_value(t, 10),
    decreases t.len(),
{
    if t.len() > 0 {
        assert(crate::numtext::all_ascii_digits(t.drop_last()));
        lemma_ascii_value_is_numeral_value(t.drop_last());
        assert(t.last() == t[t.len() - 1]);
    }
}

/// In radix ten, a number with integer digits and fractional digits pushes the number whose
/// mantissa is the value of all its digits read in radix ten and whose scale is the number of
/// fractional digits.
pub proof fn law_number_pushes_its_value(
    roots: spec_fn(nat) -> Option<DecimalValue>,
    level: nat,
    s: VMModel,
    integer: Seq<u8>,
    fraction: Seq<u8>,
)
    requires
        s.input_radix == 10,
        forall|k: int| 0 <= k < integer.len() ==> 48 <= #[trigger] integer[k] <= 57,
        forall|k: int| 0 <= k < fraction.len() ==> 48 <= #[trigger] fraction[k] <= 57,
        integer.len() + fraction.len() > 0,
        integer.len() + fraction.len() + 1 < i64::MAX,
    ensures
        step(roots, level, s, InstructionView::Num(integer, fraction)) == (VMModel {
            stack: s.stack.push(
                CellView::Num(
                    DecimalValue {
                        mantissa: numeral_value(integer + fraction, 10),
                        scale: fraction.len() as int,
                    },
                ),
            ),
            ..s
        }, VMState::Continue),
{
    let t = integer + fraction;
    assert forall|k: int| 0 <= k < t.len() implies 48 <= #[trigger] t[k] <= 57 by {
        if k < integer.len() {
            assert(t[k] == integer[k]);
        } else {
            assert(t[k] == fraction[k - integer.len()]);
        }
    }
    lemma_ascii_value_is_numeral_value(t);
}

/// `p` prints a string as it is, and a newline, in any output radix.
pub proof fn law_strings_print_as_they_are(
    roots: spec_fn(nat) -> Option<DecimalValue>,
    level: nat,
    s: VMModel,
    t: Seq<u8>,
)
    requires
        s.stack.len() > 0,
        s.stack.last() == CellView::Str(t),
    ensures
        step(roots, level, s, InstructionView::Op(112)) == (VMModel {
            output: s.output + t + seq![10u8],
            ..s
        }, VMState::Continue),
{
}

/// `/` and `%` by zero report a division by zero and leave the machine as it was; `p` on an
/// empty stack reports an empty stack.
pub proof fn law_refusals(roots: spec_fn(nat) -> Option<DecimalValue>, level: nat, s: VMModel, a: DecimalValue)
    ensures
        s.stack.len() >= 2 && s.stack[s.stack.len() - 2] == CellView::Num(a) && s.stack.last()
            == integer_number(0) ==> step(roots, level, s, InstructionView::Op(47)) == (
            s,
            VMState::DivisionByZero,
        ) && step(roots, level, s, InstructionView::Op(37)) == (s, VMState::DivisionByZero),
        s.stack.len() == 0 ==> step(roots, level, s, InstructionView::Op(112)) == (
            s,
            VMState::StackError(crate::dcstack::DCError::StackEmpty),
        ),
{
}

} // verus!
