//! Where reading a program stops, and what the text before that point reads as.
use vstd::prelude::*;
use crate::instructions::{is_simple_command, InstructionView};
use crate::numtext::{find_byte, lemma_find_byte_bounds};
use crate::parse::{
    digits_end,
    is_decimal_digit,
    lemma_digits_end,
    lemma_number_end,
    negated_register_command,
    number_at,
    number_end,
    parse_from,
    prepend_all,
    register_command,
    ErrorView,
    ParseOutcome,
};

verus! {

/// A run of digits ends at the same place in a prefix of the text, when the prefix ends at a
/// byte that is not a digit.
proof fn lemma_digits_end_prefix(s: Seq<u8>, q: nat, p: nat)
    requires
        p <= q <= s.len(),
        q == s.len() || !is_decimal_digit(s[q as int]),
    ensures
        digits_end(s.subrange(0, q as int), p) == digits_end(s, p),
        digits_end(s, p) <= q,
    decreases q - p,
{
    let t = s.subrange(0, q as int);
    if p < q {
        assert(t[p as int] == s[p as int]);
        lemma_digits_end_prefix(s, q, p + 1);
    }
}

/// A byte found before the end of a prefix is found there in the prefix too.
proof fn lemma_find_byte_prefix(s: Seq<u8>, q: nat, p: nat, b: u8)
    requires
        p <= q <= s.len(),
        find_byte(s, p, b) < q,
    ensures
        find_byte(s.subrange(0, q as int), p, b) == find_byte(s, p, b),
    decreases q - p,
{
    let t = s.subrange(0, q as int);
    lemma_find_byte_bounds(s, p, b);
    assert(t[p as int] == s[p as int]);
    if s[p as int] != b {
        lemma_find_byte_prefix(s, q, p + 1, b);
    }
}

/// `c` starts no instruction: reading stops at it.
pub open spec fn starts_no_instruction(c: u8) -> bool {
    !(c == 32 || c == 10 || is_simple_command(c) || is_decimal_digit(c) || c == 46
        || register_command(c) is Some || c == 33 || c == 91 || c == 35)
}

/// Where reading `s` from `p` stops, if it stops: at an invalid character that stands at that
/// position and starts no instruction, the text before it reading completely, as the
/// instructions read before the stop; or, when the text ends in the middle of an instruction,
/// at its end.
pub open spec fn stops_where_it_says(s: Seq<u8>, p: nat) -> bool {
    parse_from(s, p) matches ParseOutcome::Stopped { parsed, position, error, .. } ==> p <= position
        <= s.len() && match error {
        ErrorView::InvalidCharacter(c) => position < s.len() && s[position as int] == c
            && starts_no_instruction(c) && parse_from(s.subrange(0, position as int), p)
            == ParseOutcome::Complete(parsed),
        ErrorView::Eop(_) => position == s.len(),
    }
}

#[verifier::rlimit(60)]
proof fn lemma_stop_position(s: Seq<u8>, p: nat)
    requires
        p <= s.len(),
    ensures
        stops_where_it_says(s, p),
    decreases s.len() - p,
{
    if p < s.len() {
        let c = s[p as int];
        if c == 32 || c == 10 || is_simple_command(c) {
            lemma_stop_position(s, p + 1);
            if let ParseOutcome::Stopped { position, error: ErrorView::InvalidCharacter(_), .. } =
                parse_from(s, p + 1) {
                let t = s.subrange(0, position as int);
                assert(t[p as int] == c);
            }
        } else if is_decimal_digit(c) || c == 46 {
            lemma_number_end(s, p);
            let n = number_end(s, p);
            lemma_stop_position(s, n);
            if let ParseOutcome::Stopped { position, error: ErrorView::InvalidCharacter(_), .. } =
                parse_from(s, n) {
                let q = position;
                let t = s.subrange(0, q as int);
                assert(t[p as int] == c);
                lemma_digits_end_prefix(s, q, p);
                lemma_digits_end(s, p);
                let d = digits_end(s, p);
                if d < q && s[d as int] == 46 {
                    assert(t[d as int] == 46);
                    lemma_digits_end_prefix(s, q, d + 1);
                    lemma_digits_end(s, d + 1);
                    assert(t.subrange(d as int + 1, digits_end(s, d + 1) as int) =~= s.subrange(
                        d as int + 1,
                        digits_end(s, d + 1) as int,
                    ));
                }
                assert(t.subrange(p as int, d as int) =~= s.subrange(p as int, d as int));
                assert(number_end(t, p) == n);
                assert(number_at(t, p) == number_at(s, p));
            }
        } else if register_command(c) is Some {
            if p + 1 < s.len() {
                lemma_stop_position(s, p + 2);
                if let ParseOutcome::Stopped { position, error: ErrorView::InvalidCharacter(_), .. } =
                    parse_from(s, p + 2) {
                    let t = s.subrange(0, position as int);
                    assert(t[p as int] == c);
                    assert(t[p as int + 1] == s[p as int + 1]);
                }
            }
        } else if c == 33 {
            if p + 1 < s.len() {
                if negated_register_command(s[p as int + 1]) is Some {
                    if p + 2 < s.len() {
                        lemma_stop_position(s, p + 3);
                        if let ParseOutcome::Stopped {
                            position,
                            error: ErrorView::InvalidCharacter(_),
                            ..
                        } = parse_from(s, p + 3) {
                            let t = s.subrange(0, position as int);
                            assert(t[p as int] == c);
                            assert(t[p as int + 1] == s[p as int + 1]);
                            assert(t[p as int + 2] == s[p as int + 2]);
                        }
                    }
                } else {
                    lemma_find_byte_bounds(s, p + 2, 10);
                    let e = find_byte(s, p + 2, 10);
                    if e < s.len() {
                        lemma_stop_position(s, e + 1);
                        if let ParseOutcome::Stopped {
                            position,
                            error: ErrorView::InvalidCharacter(_),
                            ..
                        } = parse_from(s, e + 1) {
                            let t = s.subrange(0, position as int);
                            assert(t[p as int] == c);
                            assert(t[p as int + 1] == s[p as int + 1]);
                            lemma_find_byte_prefix(s, position, p + 2, 10);
                            assert(t.subrange(p as int + 1, e as int) =~= s.subrange(
                                p as int + 1,
                                e as int,
                            ));
                        }
                    }
                }
            }
        } else if c == 91 {
            if p + 1 < s.len() {
                if s[p as int + 1] == 93 {
                    lemma_stop_position(s, p + 2);
                    if let ParseOutcome::Stopped {
                        position,
                        error: ErrorView::InvalidCharacter(_),
                        ..
                    } = parse_from(s, p + 2) {
                        let t = s.subrange(0, position as int);
                        assert(t[p as int] == c);
                        assert(t[p as int + 1] == s[p as int + 1]);
                    }
                } else {
                    lemma_find_byte_bounds(s, p + 2, 93);
                    let e = find_byte(s, p + 2, 93);
                    if e < s.len() {
                        lemma_stop_position(s, e + 1);
                        if let ParseOutcome::Stopped {
                            position,
                            error: ErrorView::InvalidCharacter(_),
                            ..
                        } = parse_from(s, e + 1) {
                            let t = s.subrange(0, position as int);
                            assert(t[p as int] == c);
                            assert(t[p as int + 1] == s[p as int + 1]);
                            lemma_find_byte_prefix(s, position, p + 2, 93);
                            assert(t.subrange(p as int + 1, e as int) =~= s.subrange(
                                p as int + 1,
                                e as int,
                            ));
                        }
                    }
                }
            }
        } else if c == 35 {
            if p + 1 < s.len() {
                if s[p as int + 1] == 10 {
                    lemma_stop_position(s, p + 2);
                    if let ParseOutcome::Stopped {
                        position,
                        error: ErrorView::InvalidCharacter(_),
                        ..
                    } = parse_from(s, p + 2) {
                        let t = s.subrange(0, position as int);
                        assert(t[p as int] == c);
                        assert(t[p as int + 1] == s[p as int + 1]);
                    }
                } else {
                    lemma_find_byte_bounds(s, p + 2, 10);
                    let e = find_byte(s, p + 2, 10);
                    if e < s.len() {
                        lemma_stop_position(s, e + 1);
                        if let ParseOutcome::Stopped {
                            position,
                            error: ErrorView::InvalidCharacter(_),
                            ..
                        } = parse_from(s, e + 1) {
                            let t = s.subrange(0, position as int);
                            assert(t[p as int] == c);
                            assert(t[p as int + 1] == s[p as int + 1]);
                            lemma_find_byte_prefix(s, position, p + 2, 10);
                            assert(t.subrange(p as int + 1, e as int) =~= s.subrange(
                                p as int + 1,
                                e as int,
                            ));
                        }
                    }
                }
            }
        } else {
            assert(s.subrange(0, p as int).len() == p);
        }
    }
}

/// Where reading stops: when a program cannot be read to its end because of an invalid
/// character, that character stands at the position given, starts no instruction, and the
/// text before it reads completely, as the instructions read before the stop; when the text
/// ends in the middle of an instruction, the position given is its end.
pub proof fn law_parse_stops_where_it_says(s: Seq<u8>)
    ensures
        stops_where_it_says(s, 0),
{
    lemma_stop_position(s, 0);
}

} // verus!
