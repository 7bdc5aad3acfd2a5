//! Properties that relate several parts of the calculator.
use vstd::prelude::*;
use vstd::string::StringSliceAdditionalSpecFns;
use crate::dcnumber::digits::pow10;
use crate::dcstack::{cell_text, number_value, stack_text, swapped, CellView};
use crate::decimal::{
    aligned_mantissa,
    ascii_zeros,
    decimal_difference,
    decimal_sum,
    max_scale,
    plain_text,
    DecimalValue,
};
use crate::vm::{
    error_line,
    eval_list,
    next_return,
    report,
    return_of_state,
    run,
    simple_step,
    state_of_return,
    step,
    with_stack,
    ReturnState,
    VMModel,
    MAX_MACRO_DEPTH,
};
use crate::instructions::{
    instruction_text,
    instructions_text,
    is_simple_command,
    register_prefix,
    InstructionView,
    RegisterOperationType,
};
use crate::numtext::{all_ascii_digits, ascii_value, find_byte, nat_text};
use crate::parse::{
    digits_end,
    is_decimal_digit,
    negated_register_command,
    parse_from,
    prepend_all,
    ParseOutcome,
};

verus! {

/// The sequence does not hold `b`.
pub open spec fn free_of(t: Seq<u8>, b: u8) -> bool {
    forall|i: int| 0 <= i < t.len() ==> #[trigger] t[i] != b
}

/// An instruction whose text reads back as itself: a command character; a number with at
/// least one digit; a string that holds no `]`; a register operation other
/// than `!<` and `!>` (whose texts are each other's); a command or a comment that is not
/// empty and holds no newline, and a command that does not start with `<`, `>` or `=`.
pub open spec fn writable(i: InstructionView) -> bool {
    match i {
        InstructionView::Op(c) => is_simple_command(c),
        InstructionView::Num(integer, fraction) => all_ascii_digits(integer) && all_ascii_digits(
            fraction,
        ) && integer.len() + fraction.len() > 0,
        InstructionView::Str(t) => free_of(t, 93),
        InstructionView::Register(t, _) => t != RegisterOperationType::TosGeExecute && t
            != RegisterOperationType::TosLeExecute,
        InstructionView::System(c) => c.len() > 0 && free_of(c, 10) && negated_register_command(c[0])
            is None,
        InstructionView::Comment(c) => c.len() > 0 && free_of(c, 10),
    }
}

/// Every instruction is writable, and no number follows a number (their texts would run
/// together).
pub open spec fn writable_sequence(l: Seq<InstructionView>) -> bool {
    &&& forall|k: int| 0 <= k < l.len() ==> writable(#[trigger] l[k])
    &&& forall|k: int| 0 <= k < l.len() - 1 ==> !(#[trigger] l[k] is Num && l[k + 1] is Num)
}

/// The byte at `q` does not continue a number: there is none, or it is neither a digit nor a
/// dot.
pub open spec fn ends_number(s: Seq<u8>, q: int) -> bool {
    q >= s.len() || !(is_decimal_digit(s[q]) || s[q] == 46)
}

proof fn lemma_digits_end_run(s: Seq<u8>, q: nat, k: nat)
    requires
        q + k <= s.len(),
        forall|j: int| q <= j < q + k ==> is_decimal_digit(#[trigger] s[j]),
        q + k == s.len() || !is_decimal_digit(s[(q + k) as int]),
    ensures
        digits_end(s, q) == q + k,
    decreases k,
{
    if k > 0 {
        lemma_digits_end_run(s, q + 1, (k - 1) as nat);
    }
}

proof fn lemma_find_byte_run(s: Seq<u8>, q: nat, e: nat, b: u8)
    requires
        q <= e < s.len(),
        s[e as int] == b,
        forall|j: int| q <= j < e ==> #[trigger] s[j] != b,
    ensures
        find_byte(s, q, b) == e,
    decreases e - q,
{
    if q < e {
        lemma_find_byte_run(s, q + 1, e, b);
    }
}

/// The text of a writable instruction is not empty, and unless the instruction is a number it
/// starts with neither a digit nor a dot.
proof fn lemma_text_start(i: InstructionView)
    requires
        writable(i),
    ensures
        instruction_text(i).len() > 0,
        !(i is Num) ==> ends_number(instruction_text(i), 0),
{
    match i {
        InstructionView::Num(integer, fraction) => {
            if fraction.len() == 0 {
                assert(integer.len() > 0);
            }
        },
        InstructionView::Register(t, r) => {
            assert(instruction_text(i)[0] == register_prefix(t)[0]);
        },
        _ => {},
    }
}

/// The text `t` is written at `p` in `s`.
pub open spec fn written_at(s: Seq<u8>, p: int, t: Seq<u8>) -> bool {
    &&& 0 <= p
    &&& p + t.len() <= s.len()
    &&& forall|j: int| 0 <= j < t.len() ==> #[trigger] s[p + j] == t[j]
}

proof fn lemma_read_op(s: Seq<u8>, p: int, c: u8)
    requires
        is_simple_command(c),
        written_at(s, p, seq![c]),
    ensures
        parse_from(s, p as nat) == prepend_all(seq![InstructionView::Op(c)], parse_from(s, (p + 1) as nat)),
{
    assert(s[p + 0] == seq![c][0]);
}

proof fn lemma_read_num(s: Seq<u8>, p: int, integer: Seq<u8>, fraction: Seq<u8>)
    requires
        writable(InstructionView::Num(integer, fraction)),
        written_at(s, p, instruction_text(InstructionView::Num(integer, fraction))),
        ends_number(s, p + instruction_text(InstructionView::Num(integer, fraction)).len()),
    ensures
        parse_from(s, p as nat) == prepend_all(
            seq![InstructionView::Num(integer, fraction)],
            parse_from(s, (p + instruction_text(InstructionView::Num(integer, fraction)).len()) as nat),
        ),
{
    let i = InstructionView::Num(integer, fraction);
    let t = instruction_text(i);
    let a = integer.len() as int;
    assert forall|j: int| p <= j < p + a implies is_decimal_digit(#[trigger] s[j]) by {
        assert(s[p + (j - p)] == t[j - p]);
        assert(t[j - p] == integer[j - p]);
    }
    if fraction.len() > 0 {
        assert(s[p + a] == t[a]);
        assert(t[a] == 46);
    } else {
        assert(t =~= integer);
        assert(fraction =~= Seq::<u8>::empty());
    }
    lemma_digits_end_run(s, p as nat, a as nat);
    assert forall|k: int| 0 <= k < a implies #[trigger] s.subrange(p, p + a)[k] == integer[k] by {
        assert(s[p + k] == t[k]);
    }
    assert(s.subrange(p, p + a) =~= integer);
    if a > 0 {
        assert(s[p + 0] == t[0]);
    }
    if fraction.len() > 0 {
        let f = fraction.len() as int;
        assert(s[p + a] == t[a]);
        if a == 0 {
            assert(s[p + 0] == t[0]);
        }
        assert forall|j: int| p + a + 1 <= j < p + a + 1 + f implies is_decimal_digit(
            #[trigger] s[j],
        ) by {
            assert(s[p + (j - p)] == t[j - p]);
            assert(t[j - p] == fraction[j - p - a - 1]);
        }
        lemma_digits_end_run(s, (p + a + 1) as nat, f as nat);
        assert forall|k: int| 0 <= k < f implies #[trigger] s.subrange(p + a + 1, p + a + 1 + f)[k]
            == fraction[k] by {
            assert(s[p + (a + 1 + k)] == t[a + 1 + k]);
        }
        assert(s.subrange(p + a + 1, p + a + 1 + f) =~= fraction);
        assert(t.len() == a + 1 + f);
    }
    assert(crate::parse::number_end(s, p as nat) == p + t.len());
    assert(crate::parse::number_at(s, p as nat) == i);
}

proof fn lemma_read_string(s: Seq<u8>, p: int, body: Seq<u8>)
    requires
        writable(InstructionView::Str(body)),
        written_at(s, p, instruction_text(InstructionView::Str(body))),
    ensures
        parse_from(s, p as nat) == prepend_all(
            seq![InstructionView::Str(body)],
            parse_from(s, (p + body.len() + 2) as nat),
        ),
{
    let t = instruction_text(InstructionView::Str(body));
    let e = p + 1 + body.len();
    assert(s[p + 0] == t[0]);
    assert(s[p + (body.len() + 1)] == t[body.len() as int + 1]);
    if body.len() == 0 {
        assert(body =~= Seq::<u8>::empty());
        assert(s[p + 1] == 93);
    } else {
        assert forall|j: int| p + 2 <= j < e implies #[trigger] s[j] != 93 by {
            assert(s[p + (j - p)] == t[j - p]);
            assert(t[j - p] == body[j - p - 1]);
        }
        lemma_find_byte_run(s, (p + 2) as nat, e as nat, 93);
        assert forall|k: int| 0 <= k < body.len() implies #[trigger] s.subrange(p + 1, e)[k] == body[k] by {
            assert(s[p + (k + 1)] == t[k + 1]);
        }
        assert(s.subrange(p + 1, e) =~= body);
    }
}

proof fn lemma_read_register(s: Seq<u8>, p: int, op: RegisterOperationType, r: u8)
    requires
        writable(InstructionView::Register(op, r)),
        written_at(s, p, instruction_text(InstructionView::Register(op, r))),
    ensures
        parse_from(s, p as nat) == prepend_all(
            seq![InstructionView::Register(op, r)],
            parse_from(s, (p + instruction_text(InstructionView::Register(op, r)).len()) as nat),
        ),
{
    let t = instruction_text(InstructionView::Register(op, r));
    assert(s[p + 0] == t[0]);
    assert(s[p + 1] == t[1]);
    if op == RegisterOperationType::TosNeExecute {
        assert(s[p + 2] == t[2]);
    }
}

proof fn lemma_read_line(s: Seq<u8>, p: int, lead: u8, c: Seq<u8>)
    requires
        c.len() > 0,
        free_of(c, 10),
        written_at(s, p, seq![lead] + c + seq![10u8]),
    ensures
        s[p] == lead,
        s[p + 1] == c[0],
        find_byte(s, (p + 2) as nat, 10) == p + 1 + c.len(),
        p + 1 + c.len() < s.len(),
        s.subrange(p + 1, p + 1 + c.len()) == c,
{
    let t = seq![lead] + c + seq![10u8];
    let e = p + 1 + c.len();
    assert(s[p + 0] == t[0]);
    assert(s[p + 1] == t[1]);
    assert(s[p + (c.len() + 1)] == t[c.len() as int + 1]);
    assert forall|j: int| p + 2 <= j < e implies #[trigger] s[j] != 10 by {
        assert(s[p + (j - p)] == t[j - p]);
        assert(t[j - p] == c[j - p - 1]);
    }
    lemma_find_byte_run(s, (p + 2) as nat, e as nat, 10);
    assert forall|k: int| 0 <= k < c.len() implies #[trigger] s.subrange(p + 1, e)[k] == c[k] by {
        assert(s[p + (k + 1)] == t[k + 1]);
    }
    assert(s.subrange(p + 1, e) =~= c);
}

/// A writable instruction written at `p`, and not followed by more of a number, reads as
/// itself, and reading goes on after it.
proof fn lemma_read_one(s: Seq<u8>, p: nat, i: InstructionView)
    requires
        writable(i),
        written_at(s, p as int, instruction_text(i)),
        i is Num ==> ends_number(s, p + instruction_text(i).len() as int),
    ensures
        parse_from(s, p) == prepend_all(seq![i], parse_from(s, p + instruction_text(i).len())),
{
    match i {
        InstructionView::Op(c) => lemma_read_op(s, p as int, c),
        InstructionView::Num(integer, fraction) => lemma_read_num(s, p as int, integer, fraction),
        InstructionView::Str(body) => lemma_read_string(s, p as int, body),
        InstructionView::Register(op, r) => lemma_read_register(s, p as int, op, r),
        InstructionView::System(c) => {
            lemma_read_line(s, p as int, 33, c);
        },
        InstructionView::Comment(c) => {
            lemma_read_line(s, p as int, 35, c);
        },
    }
}

/// The text of a sequence is the text of its first instruction, then that of the rest.
proof fn lemma_text_front(l: Seq<InstructionView>)
    requires
        l.len() > 0,
    ensures
        instructions_text(l) == instruction_text(l[0]) + instructions_text(l.drop_first()),
    decreases l.len(),
{
    if l.len() == 1 {
        assert(l.drop_last() =~= Seq::<InstructionView>::empty());
        assert(l.drop_first() =~= Seq::<InstructionView>::empty());
        assert(instructions_text(l) =~= instruction_text(l[0]) + instructions_text(l.drop_first()));
    } else {
        lemma_text_front(l.drop_last());
        assert(l.drop_last().drop_first() =~= l.drop_first().drop_last());
        assert(l.drop_first().last() == l.last());
        assert(instructions_text(l) =~= instruction_text(l[0]) + instructions_text(l.drop_first()));
    }
}

/// A writable sequence written at `p`, and not followed by more of a number, reads as itself.
proof fn lemma_read_sequence(s: Seq<u8>, p: nat, l: Seq<InstructionView>)
    requires
        writable_sequence(l),
        written_at(s, p as int, instructions_text(l)),
        l.len() > 0 && l.last() is Num ==> ends_number(s, p + instructions_text(l).len() as int),
    ensures
        parse_from(s, p) == prepend_all(l, parse_from(s, p + instructions_text(l).len())),
    decreases l.len(),
{
    let n = instructions_text(l).len() as int;
    if l.len() == 0 {
        match parse_from(s, p) {
            ParseOutcome::Complete(rest) => {
                assert(Seq::<InstructionView>::empty() + rest =~= rest);
            },
            ParseOutcome::Stopped { parsed, .. } => {
                assert(Seq::<InstructionView>::empty() + parsed =~= parsed);
            },
        }
    } else {
        let i = l[0];
        let rest = l.drop_first();
        lemma_text_front(l);
        let m = instruction_text(i).len() as int;
        let t = instructions_text(l);
        let pi = p as int;
        assert(written_at(s, pi, instruction_text(i))) by {
            assert forall|j: int| 0 <= j < m implies #[trigger] s[pi + j] == instruction_text(i)[j] by {
                assert(s[pi + j] == t[j]);
            }
        }
        assert(written_at(s, pi + m, instructions_text(rest))) by {
            assert forall|j: int| 0 <= j < n - m implies #[trigger] s[pi + m + j] == instructions_text(rest)[j] by {
                assert(s[pi + (m + j)] == t[m + j]);
            }
        }
        assert(writable_sequence(rest)) by {
            assert forall|k: int| 0 <= k < rest.len() implies writable(#[trigger] rest[k]) by {
                assert(rest[k] == l[k + 1]);
            }
            assert forall|k: int| 0 <= k < rest.len() - 1 implies !(#[trigger] rest[k] is Num
                && rest[k + 1] is Num) by {
                assert(rest[k] == l[k + 1]);
                assert(rest[k + 1] == l[k + 2]);
            }
        }
        assert(writable(l[0]));
        if i is Num {
            if rest.len() > 0 {
                assert(!(l[0] is Num && l[1] is Num));
                assert(writable(rest[0]));
                lemma_text_front(rest);
                lemma_text_start(rest[0]);
                assert(s[pi + m + 0] == instructions_text(rest)[0]);
                assert(instructions_text(rest)[0] == instruction_text(rest[0])[0]);
            } else {
                assert(instructions_text(rest) =~= Seq::<u8>::empty());
            }
        }
        lemma_read_one(s, p, i);
        if rest.len() > 0 {
            assert(rest.last() == l.last());
        }
        lemma_read_sequence(s, (pi + m) as nat, rest);
        match parse_from(s, (pi + n) as nat) {
            ParseOutcome::Complete(r) => {
                assert(seq![i] + (rest + r) =~= l + r);
            },
            ParseOutcome::Stopped { parsed, .. } => {
                assert(seq![i] + (rest + parsed) =~= l + parsed);
            },
        }
    }
}

/// Reading back what instructions write: the text of a sequence of writable instructions, no
/// number right after a number, reads as that very sequence.
pub proof fn law_text_reads_back(l: Seq<InstructionView>)
    requires
        writable_sequence(l),
    ensures
        parse_from(instructions_text(l), 0) == ParseOutcome::Complete(l),
{
    let t = instructions_text(l);
    lemma_read_sequence(t, 0, l);
    assert(l + Seq::<InstructionView>::empty() =~= l);
}

/// `a` begins with `b`.
pub open spec fn begins_with(a: Seq<u8>, b: Seq<u8>) -> bool {
    b.len() <= a.len() && a.subrange(0, b.len() as int) == b
}

/// From `s` to `t` the machine only added to what it printed and to what it reported, and
/// asked for no fewer square roots.
pub open spec fn only_appends(s: VMModel, t: VMModel) -> bool {
    &&& begins_with(t.output, s.output)
    &&& begins_with(t.errors, s.errors)
    &&& s.roots_asked <= t.roots_asked
}

proof fn lemma_appends_trans(a: VMModel, b: VMModel, c: VMModel)
    requires
        only_appends(a, b),
        only_appends(b, c),
    ensures
        only_appends(a, c),
{
    assert(c.output.subrange(0, a.output.len() as int) =~= b.output.subrange(0, a.output.len() as int));
    assert(c.errors.subrange(0, a.errors.len() as int) =~= b.errors.subrange(0, a.errors.len() as int));
}

proof fn lemma_appends_extend(a: VMModel, out: Seq<u8>, err: Seq<u8>, b: VMModel)
    requires
        b.output == a.output + out,
        b.errors == a.errors + err,
        a.roots_asked <= b.roots_asked,
    ensures
        only_appends(a, b),
{
    assert(b.output.subrange(0, a.output.len() as int) =~= a.output);
    assert(b.errors.subrange(0, a.errors.len() as int) =~= a.errors);
}

proof fn lemma_simple_step_appends(s: VMModel, c: u8)
    ensures
        only_appends(s, simple_step(s, c).0),
{
    let t = simple_step(s, c).0;
    if t.output == s.output {
        lemma_appends_extend(s, Seq::empty(), Seq::empty(), t);
        assert(s.output + Seq::<u8>::empty() =~= s.output);
        assert(s.errors + Seq::<u8>::empty() =~= s.errors);
    } else if c == 102 {
        lemma_appends_extend(s, stack_text(s.stack, s.output_radix), Seq::empty(), t);
        assert(s.errors + Seq::<u8>::empty() =~= s.errors);
    } else {
        let printed = cell_text(s.stack.last(), s.output_radix) + seq![10u8];
        assert(t.output =~= s.output + printed);
        lemma_appends_extend(s, printed, Seq::empty(), t);
        assert(s.errors + Seq::<u8>::empty() =~= s.errors);
    }
}

proof fn lemma_same_output(s: VMModel, t: VMModel)
    requires
        t.output == s.output,
        t.errors == s.errors,
        s.roots_asked <= t.roots_asked,
    ensures
        only_appends(s, t),
{
    assert(s.output + Seq::<u8>::empty() =~= s.output);
    assert(s.errors + Seq::<u8>::empty() =~= s.errors);
    lemma_appends_extend(s, Seq::empty(), Seq::empty(), t);
}

proof fn lemma_step_appends(
    roots: spec_fn(nat) -> Option<DecimalValue>,
    level: nat,
    s: VMModel,
    i: InstructionView,
)
    ensures
        only_appends(s, step(roots, level, s, i).0),
    decreases MAX_MACRO_DEPTH - level, 0nat, 0nat,
{
    let t = step(roots, level, s, i).0;
    match i {
        InstructionView::Op(c) => {
            if c == 120 {
                if s.stack.len() > 0 && s.stack.last() is Str && level < MAX_MACRO_DEPTH {
                    let popped = with_stack(s, s.stack.drop_last());
                    lemma_run_appends(roots, level + 1, popped, s.stack.last()->Str_0);
                } else {
                    lemma_same_output(s, t);
                }
            } else if c == 118 {
                lemma_same_output(s, t);
            } else {
                lemma_simple_step_appends(s, c);
            }
        },
        _ => {
            lemma_same_output(s, t);
        },
    }
}

proof fn lemma_eval_appends(
    roots: spec_fn(nat) -> Option<DecimalValue>,
    level: nat,
    s: VMModel,
    l: Seq<InstructionView>,
)
    ensures
        only_appends(s, eval_list(roots, level, s, l).0),
    decreases MAX_MACRO_DEPTH - level, 1nat, l.len(),
{
    if l.len() == 0 {
        lemma_same_output(s, s);
    } else {
        let (s1, st) = step(roots, level, s, l[0]);
        lemma_step_appends(roots, level, s, l[0]);
        if st is Continue {
            lemma_eval_appends(roots, level, s1, l.drop_first());
            lemma_appends_trans(s, s1, eval_list(roots, level, s1, l.drop_first()).0);
        } else if !(st is TerminatingReturn || st is TerminatingReturnEnclosing || st is NonTerminatingReturn) {
            let s2 = report(s1, st);
            lemma_appends_extend(s1, Seq::empty(), error_line(st), s2);
            assert(s1.output + Seq::<u8>::empty() =~= s1.output);
            lemma_appends_trans(s, s1, s2);
            lemma_eval_appends(roots, level, s2, l.drop_first());
            lemma_appends_trans(s, s2, eval_list(roots, level, s2, l.drop_first()).0);
        }
    }
}

proof fn lemma_run_appends(
    roots: spec_fn(nat) -> Option<DecimalValue>,
    level: nat,
    s: VMModel,
    text: Seq<u8>,
)
    ensures
        only_appends(s, run(roots, level, s, text).0),
    decreases MAX_MACRO_DEPTH - level, 2nat, text.len(),
{
    match parse_from(text, 0) {
        ParseOutcome::Complete(l) => {
            lemma_eval_appends(roots, level, s, l);
        },
        ParseOutcome::Stopped { parsed, position, error, resume } => {
            let (s1, r) = eval_list(roots, level, s, parsed);
            lemma_eval_appends(roots, level, s, parsed);
            if r is Done && 0 < resume <= text.len() {
                let line = "dc: ".spec_bytes() + crate::parse::error_text(position, error) + seq![10u8];
                let s2 = VMModel { errors: s1.errors + line, ..s1 };
                assert(s2.errors =~= s1.errors + "dc: ".spec_bytes() + crate::parse::error_text(position, error) + seq![10u8]);
                lemma_appends_extend(s1, Seq::empty(), line, s2);
                assert(s1.output + Seq::<u8>::empty() =~= s1.output);
                lemma_appends_trans(s, s1, s2);
                let rest = text.subrange(resume as int, text.len() as int);
                lemma_run_appends(roots, level, s2, rest);
                lemma_appends_trans(s, s2, run(roots, level, s2, rest).0);
            }
        },
    }
}

/// Running a program never takes back what the machine printed or reported: it only adds to
/// both, whatever the square roots it asks for come to.
pub proof fn law_running_only_appends(
    roots: spec_fn(nat) -> Option<DecimalValue>,
    level: nat,
    s: VMModel,
    text: Seq<u8>,
)
    ensures
        only_appends(s, run(roots, level, s, text).0),
{
    lemma_run_appends(roots, level, s, text);
}

/// Exchanging the two top values twice leaves the stack as it was.
pub proof fn law_swap_twice(s: Seq<CellView>)
    requires
        s.len() >= 2,
    ensures
        swapped(swapped(s)) == s,
{
    assert(swapped(swapped(s)) =~= s);
}

/// Popping after a push gives back the value pushed, and the stack before the push.
pub proof fn law_pop_undoes_push(s: Seq<CellView>, c: CellView)
    ensures
        s.push(c).last() == c,
        s.push(c).drop_last() == s,
{
    assert(s.push(c).drop_last() =~= s);
}

/// A return read as a machine state and back is the same return.
pub proof fn law_return_state_round_trip(r: ReturnState)
    ensures
        return_of_state(state_of_return(r)) == r,
{
}

/// A return that leaves `n` levels of macros is spent after `n + 1` levels.
pub open spec fn after_levels(r: ReturnState, k: nat) -> ReturnState
    decreases k,
{
    if k == 0 {
        r
    } else {
        after_levels(next_return(r), (k - 1) as nat)
    }
}

/// `Q` with `n` leaves `n` levels of macros and no more: after `n + 1` levels the return is
/// spent, and before that it still ends the text being run.
pub proof fn law_returns_are_spent(n: u64, k: nat)
    ensures
        k <= n ==> after_levels(ReturnState::NonTerminatingReturn(n), k) == ReturnState::NonTerminatingReturn((n - k) as u64),
        after_levels(ReturnState::NonTerminatingReturn(n), n as nat + 1) == ReturnState::Done,
    decreases n,
{
    lemma_after_levels(n, k);
    lemma_after_levels(n, n as nat);
    lemma_after_levels_split(ReturnState::NonTerminatingReturn(n), n as nat);
}

proof fn lemma_after_levels(n: u64, k: nat)
    ensures
        k <= n ==> after_levels(ReturnState::NonTerminatingReturn(n), k) == ReturnState::NonTerminatingReturn((n - k) as u64),
    decreases k,
{
    if k > 0 && k <= n {
        lemma_after_levels((n - 1) as u64, (k - 1) as nat);
    }
}

proof fn lemma_after_levels_split(r: ReturnState, k: nat)
    ensures
        after_levels(r, k + 1) == next_return(after_levels(r, k)),
    decreases k,
{
    assert(after_levels(r, k + 1) == after_levels(next_return(r), k));
    if k > 0 {
        lemma_after_levels_split(next_return(r), (k - 1) as nat);
        assert(after_levels(r, k) == after_levels(next_return(r), (k - 1) as nat));
    } else {
        assert(after_levels(next_return(r), 0) == next_return(r));
    }
}

/// How many levels of macros a return leaves, as `VMState::stack_unwind` counts them for the
/// state that it is.
pub open spec fn return_levels(r: ReturnState) -> nat {
    match r {
        ReturnState::NonTerminatingReturn(n) => n as nat,
        ReturnState::TerminatingReturnEnclosing => 1,
        ReturnState::TerminatingReturn => 2,
        ReturnState::Done => 0,
    }
}

/// Once spent, a return stays spent.
proof fn lemma_done_stays(k: nat)
    ensures
        after_levels(ReturnState::Done, k) == ReturnState::Done,
    decreases k,
{
    if k > 0 {
        lemma_done_stays((k - 1) as nat);
    }
}

/// Every return is spent after one level more than it leaves, and stays spent: `next` applied
/// that many times, or more, gives `Done`.
pub proof fn law_every_return_is_spent(r: ReturnState, k: nat)
    requires
        k >= return_levels(r) + 1,
    ensures
        after_levels(r, k) == ReturnState::Done,
    decreases k,
{
    match r {
        ReturnState::Done => {
            lemma_done_stays(k);
        },
        ReturnState::NonTerminatingReturn(n) => {
            if n == 0 {
                lemma_done_stays((k - 1) as nat);
            } else {
                law_every_return_is_spent(ReturnState::NonTerminatingReturn((n - 1) as u64), (k - 1) as nat);
            }
        },
        _ => {
            law_every_return_is_spent(next_return(r), (k - 1) as nat);
        },
    }
}

/// The sum of two numbers is exact: written at any scale at least as large as theirs, its
/// mantissa is the sum of theirs.
pub proof fn law_sum_is_exact(a: DecimalValue, b: DecimalValue, k: int)
    requires
        k >= a.scale,
        k >= b.scale,
    ensures
        decimal_sum(a, b).scale <= k,
        aligned_mantissa(decimal_sum(a, b), k) == aligned_mantissa(a, k) + aligned_mantissa(b, k),
{
    let s = max_scale(a, b);
    if b.mantissa != 0 && a.mantissa != 0 {
        lemma_realign(a, s, k);
        lemma_realign(b, s, k);
        let r = decimal_sum(a, b);
        assert(aligned_mantissa(r, k) == (aligned_mantissa(a, s) + aligned_mantissa(b, s)) * pow10((k - s) as nat));
        assert((aligned_mantissa(a, s) + aligned_mantissa(b, s)) * pow10((k - s) as nat) == aligned_mantissa(a, s) * pow10((k - s) as nat) + aligned_mantissa(b, s) * pow10((k - s) as nat)) by (nonlinear_arith);
    } else if b.mantissa == 0 {
        assert(aligned_mantissa(b, k) == 0);
    } else {
        assert(aligned_mantissa(a, k) == 0);
    }
}

/// The difference of two numbers is exact, as the sum is.
pub proof fn law_difference_is_exact(a: DecimalValue, b: DecimalValue, k: int)
    requires
        k >= a.scale,
        k >= b.scale,
    ensures
        decimal_difference(a, b).scale <= k,
        aligned_mantissa(decimal_difference(a, b), k) == aligned_mantissa(a, k) - aligned_mantissa(b, k),
{
    let s = max_scale(a, b);
    if b.mantissa != 0 && a.mantissa != 0 {
        lemma_realign(a, s, k);
        lemma_realign(b, s, k);
        let r = decimal_difference(a, b);
        assert(aligned_mantissa(r, k) == (aligned_mantissa(a, s) - aligned_mantissa(b, s)) * pow10((k - s) as nat));
        assert((aligned_mantissa(a, s) - aligned_mantissa(b, s)) * pow10((k - s) as nat) == aligned_mantissa(a, s) * pow10((k - s) as nat) - aligned_mantissa(b, s) * pow10((k - s) as nat)) by (nonlinear_arith);
    } else if b.mantissa == 0 {
        assert(aligned_mantissa(b, k) == 0);
    } else {
        assert(aligned_mantissa(a, k) == 0);
        let r = decimal_difference(a, b);
        assert(aligned_mantissa(r, k) == (-b.mantissa) * pow10((k - b.scale) as nat));
        assert((-b.mantissa) * pow10((k - b.scale) as nat) == -(b.mantissa * pow10((k - b.scale) as nat))) by (nonlinear_arith);
    }
}

/// Writing at scale `s` and then at a larger scale `k` is writing at `k`.
proof fn lemma_realign(v: DecimalValue, s: int, k: int)
    requires
        v.scale <= s <= k,
    ensures
        aligned_mantissa(v, k) == aligned_mantissa(v, s) * pow10((k - s) as nat),
{
    crate::dcnumber::digits::lemma_pow10_add((s - v.scale) as nat, (k - s) as nat);
    assert(((s - v.scale) as nat + (k - s) as nat) == (k - v.scale) as nat);
    let x = pow10((s - v.scale) as nat);
    let y = pow10((k - s) as nat);
    assert(v.mantissa * (x * y) == (v.mantissa * x) * y) by (nonlinear_arith);
}

/// Decimal digits written without superfluous leading zeros: one digit, or a first digit
/// other than zero.
pub open spec fn canonical_digits(d: Seq<u8>) -> bool {
    d.len() > 0 && all_ascii_digits(d) && (d.len() == 1 || d[0] != 48)
}

/// How a number is written from its integer and fractional digits: with a dot between them
/// when there are fractional digits.
pub open spec fn number_literal(integer: Seq<u8>, fraction: Seq<u8>) -> Seq<u8> {
    if fraction.len() > 0 {
        integer + seq![46u8] + fraction
    } else {
        integer
    }
}

proof fn lemma_ascii_value_lower(d: Seq<u8>)
    requires
        d.len() > 0,
        all_ascii_digits(d),
        d[0] != 48,
    ensures
        ascii_value(d) >= pow10((d.len() - 1) as nat),
    decreases d.len(),
{
    if d.len() > 1 {
        let e = d.drop_last();
        assert(e[0] == d[0]);
        assert(all_ascii_digits(e)) by {
            assert forall|i: int| 0 <= i < e.len() implies 48 <= #[trigger] e[i] <= 57 by {
                assert(e[i] == d[i]);
            }
        }
        lemma_ascii_value_lower(e);
        assert(pow10((d.len() - 1) as nat) == 10 * pow10((e.len() - 1) as nat));
    } else {
        assert(d.drop_last().len() == 0);
        assert(pow10(0) == 1);
    }
}

/// Canonical digits are the text of the number they denote.
proof fn lemma_canonical_text(d: Seq<u8>)
    requires
        canonical_digits(d),
    ensures
        nat_text(ascii_value(d)) == d,
    decreases d.len(),
{
    let n = ascii_value(d);
    let last = d.last();
    assert(48 <= last <= 57);
    if d.len() == 1 {
        assert(d.drop_last().len() == 0);
        assert(ascii_value(d.drop_last()) == 0);
        assert(n == (last - 48) as nat);
        assert(nat_text(n) =~= d);
    } else {
        let e = d.drop_last();
        assert(e[0] == d[0]);
        assert(all_ascii_digits(e)) by {
            assert forall|i: int| 0 <= i < e.len() implies 48 <= #[trigger] e[i] <= 57 by {
                assert(e[i] == d[i]);
            }
        }
        lemma_ascii_value_lower(d);
        crate::dcnumber::digits::lemma_pow10_monotonic(1, (d.len() - 1) as nat);
        assert(pow10(0) == 1);
        assert(pow10(1) == 10);
        assert(n >= 10);
        assert(n / 10 == ascii_value(e));
        assert(n % 10 == (last - 48) as nat);
        lemma_canonical_text(e);
        assert(nat_text(n) =~= d);
    }
}

/// ASCII zeros in front add nothing to the value.
proof fn lemma_leading_zeros_value(z: nat, g: Seq<u8>)
    ensures
        ascii_value(ascii_zeros(z) + g) == ascii_value(g),
    decreases g.len(), z,
{
    if g.len() > 0 {
        assert((ascii_zeros(z) + g).drop_last() =~= ascii_zeros(z) + g.drop_last());
        lemma_leading_zeros_value(z, g.drop_last());
    } else if z > 0 {
        assert(ascii_zeros(z) + g =~= ascii_zeros(z));
        assert(ascii_zeros(z).drop_last() =~= ascii_zeros((z - 1) as nat));
        lemma_leading_zeros_value((z - 1) as nat, g);
        assert(ascii_zeros((z - 1) as nat) + g =~= ascii_zeros((z - 1) as nat));
    } else {
        assert(ascii_zeros(0) + g =~= g);
    }
}

/// The number of ASCII zeros at the start.
pub open spec fn leading_zeros(f: Seq<u8>) -> nat
    decreases f.len(),
{
    if f.len() > 0 && f[0] == 48 {
        1 + leading_zeros(f.drop_first())
    } else {
        0
    }
}

proof fn lemma_leading_zeros_split(f: Seq<u8>)
    ensures
        leading_zeros(f) <= f.len(),
        f == ascii_zeros(leading_zeros(f)) + f.skip(leading_zeros(f) as int),
        leading_zeros(f) < f.len() ==> f[leading_zeros(f) as int] != 48,
    decreases f.len(),
{
    if f.len() > 0 && f[0] == 48 {
        let g = f.drop_first();
        lemma_leading_zeros_split(g);
        let z = leading_zeros(g);
        assert(f.skip(z as int + 1) =~= g.skip(z as int));
        assert(f =~= seq![48u8] + g);
        assert(ascii_zeros(z + 1) =~= seq![48u8] + ascii_zeros(z));
        assert(f =~= ascii_zeros(z + 1) + f.skip(z as int + 1));
        if z + 1 < f.len() {
            assert(f[z as int + 1] == g[z as int]);
        }
    } else {
        assert(f.skip(0) =~= f);
        assert(f =~= ascii_zeros(0) + f.skip(0));
    }
}

/// Printing back what was read: a number written with canonical integer digits, and a dot
/// and fractional digits or not, is printed in radix ten exactly as it was written.
pub proof fn law_numbers_print_as_written(integer: Seq<u8>, fraction: Seq<u8>)
    requires
        canonical_digits(integer),
        all_ascii_digits(fraction),
    ensures
        plain_text(number_value(integer, fraction)) == number_literal(integer, fraction),
{
    let v = number_value(integer, fraction);
    let d = integer + fraction;
    if fraction.len() == 0 {
        assert(d =~= integer);
        lemma_canonical_text(integer);
        assert(nat_text(ascii_value(integer)) + ascii_zeros(0) =~= integer);
    } else if integer[0] != 48 {
        assert(canonical_digits(d)) by {
            assert(d[0] == integer[0]);
            assert forall|i: int| 0 <= i < d.len() implies 48 <= #[trigger] d[i] <= 57 by {
                if i < integer.len() {
                    assert(d[i] == integer[i]);
                } else {
                    assert(d[i] == fraction[i - integer.len()]);
                }
            }
        }
        lemma_canonical_text(d);
        let cut = d.len() - fraction.len();
        assert(d.subrange(0, cut) =~= integer);
        assert(d.subrange(cut, d.len() as int) =~= fraction);
    } else {
        assert(integer =~= seq![48u8]);
        lemma_leading_zeros_split(fraction);
        let z = leading_zeros(fraction);
        let g = fraction.skip(z as int);
        assert(d =~= ascii_zeros(z + 1) + g) by {
            assert(ascii_zeros(z + 1) =~= seq![48u8] + ascii_zeros(z));
        }
        lemma_leading_zeros_value(z + 1, g);
        if g.len() == 0 {
            assert(ascii_value(g) == 0);
            assert(nat_text(0) =~= seq![48u8]);
            assert(fraction =~= ascii_zeros(z));
            assert(seq![48u8, 46u8] + ascii_zeros((fraction.len() - 1) as nat) + seq![48u8] =~= integer
                + seq![46u8] + fraction);
        } else {
            assert(canonical_digits(g)) by {
                assert forall|i: int| 0 <= i < g.len() implies 48 <= #[trigger] g[i] <= 57 by {
                    assert(g[i] == fraction[z + i]);
                }
                assert(g[0] == fraction[z as int]);
            }
            lemma_canonical_text(g);
            assert(seq![48u8, 46u8] + ascii_zeros((fraction.len() - g.len()) as nat) + g =~= integer
                + seq![46u8] + fraction);
        }
    }
}

/// The instruction is none of `q`, `Q` and `x`, which are the ones that can return.
pub open spec fn returns_nothing(i: InstructionView) -> bool {
    !(i == InstructionView::Op(113) || i == InstructionView::Op(81) || i == InstructionView::Op(
        120,
    ))
}

/// An instruction other than `q`, `Q` and `x` never ends the text it stands in.
proof fn lemma_step_does_not_return(
    roots: spec_fn(nat) -> Option<DecimalValue>,
    level: nat,
    s: VMModel,
    i: InstructionView,
)
    requires
        returns_nothing(i),
    ensures
        !(step(roots, level, s, i).1 is TerminatingReturn || step(roots, level, s, i).1 is TerminatingReturnEnclosing
            || step(roots, level, s, i).1 is NonTerminatingReturn),
{
    if let InstructionView::Op(c) = i {
        if c == 43 || c == 45 || c == 42 || c == 47 || c == 37 {
            assert(!(crate::vm::binary_step(s, c).1 is TerminatingReturn
                || crate::vm::binary_step(s, c).1 is TerminatingReturnEnclosing
                || crate::vm::binary_step(s, c).1 is NonTerminatingReturn));
        }
    }
}

/// A sequence of instructions without `q`, `Q` and `x` runs to its end: whatever else happens,
/// its errors are reported and the machine goes on.
pub proof fn law_without_returns_ends_done(
    roots: spec_fn(nat) -> Option<DecimalValue>,
    level: nat,
    s: VMModel,
    l: Seq<InstructionView>,
)
    requires
        forall|k: int| 0 <= k < l.len() ==> returns_nothing(#[trigger] l[k]),
    ensures
        eval_list(roots, level, s, l).1 == ReturnState::Done,
    decreases l.len(),
{
    if l.len() > 0 {
        lemma_step_does_not_return(roots, level, s, l[0]);
        let (s1, st) = step(roots, level, s, l[0]);
        assert forall|k: int| 0 <= k < l.drop_first().len() implies returns_nothing(
            #[trigger] l.drop_first()[k],
        ) by {
            assert(l.drop_first()[k] == l[k + 1]);
        }
        if st is Continue {
            law_without_returns_ends_done(roots, level, s1, l.drop_first());
        } else {
            law_without_returns_ends_done(roots, level, report(s1, st), l.drop_first());
        }
    }
}

/// A program text that reads completely, with no `q`, `Q` or `x` in it, runs to its end.
pub proof fn law_text_without_returns_ends_done(
    roots: spec_fn(nat) -> Option<DecimalValue>,
    level: nat,
    s: VMModel,
    text: Seq<u8>,
)
    requires
        parse_from(text, 0) matches ParseOutcome::Complete(l) && forall|k: int|
            0 <= k < l.len() ==> returns_nothing(#[trigger] l[k]),
    ensures
        run(roots, level, s, text).1 == ReturnState::Done,
{
    if let ParseOutcome::Complete(l) = parse_from(text, 0) {
        law_without_returns_ends_done(roots, level, s, l);
    }
}

} // verus!
