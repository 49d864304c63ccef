//! The line grammar: `<op> <signed-int>` per line, parsed leniently.
//!
//! An unrecognized opcode token becomes a `Nop`, and an operand that is not a
//! well-formed `i64` literal becomes 0. Both fallbacks are deliberate policy,
//! not error paths.

use crate::ops::OP;
use vstd::prelude::*;

verus! {

/// An ASCII decimal digit.
pub open spec fn is_digit(c: char) -> bool {
    48 <= c as u32 <= 57
}

/// The value of one ASCII decimal digit.
pub open spec fn digit_val(c: char) -> int {
    c as u32 - 48
}

pub open spec fn all_digits(s: Seq<char>) -> bool {
    forall|j: int| 0 <= j < s.len() ==> is_digit(#[trigger] s[j])
}

/// The base-ten value of a digit string, most significant digit first.
pub open spec fn digits_val(s: Seq<char>) -> int
    decreases s.len(),
{
    if s.len() == 0 {
        0
    } else {
        digits_val(s.drop_last()) * 10 + digit_val(s.last())
    }
}

/// Whether the literal starts with an explicit sign character.
pub open spec fn has_sign_char(s: Seq<char>) -> bool {
    s.len() > 0 && (s[0] == '+' || s[0] == '-')
}

/// The digits of the literal, the sign stripped.
pub open spec fn int_body(s: Seq<char>) -> Seq<char> {
    if has_sign_char(s) {
        s.drop_first()
    } else {
        s
    }
}

pub open spec fn int_sign(s: Seq<char>) -> int {
    if s.len() > 0 && s[0] == '-' {
        -1
    } else {
        1
    }
}

/// Exactly the strings `i64::from_str` accepts: an optional sign, at least
/// one digit, nothing else, and a value that fits in an `i64`.
pub open spec fn is_i64_literal(s: Seq<char>) -> bool {
    &&& int_body(s).len() > 0
    &&& all_digits(int_body(s))
    &&& i64::MIN <= int_sign(s) * digits_val(int_body(s)) <= i64::MAX
}

/// The operand a line contributes: its literal's value, or 0 when the
/// literal is malformed or out of range (the lenient-parsing policy).
pub open spec fn spec_to_int(s: Seq<char>) -> int {
    if is_i64_literal(s) {
        int_sign(s) * digits_val(int_body(s))
    } else {
        0
    }
}

proof fn lemma_digits_val_nonneg(s: Seq<char>)
    requires
        all_digits(s),
    ensures
        digits_val(s) >= 0,
    decreases s.len(),
{
    if s.len() > 0 {
        assert(all_digits(s.drop_last()));
        lemma_digits_val_nonneg(s.drop_last());
    }
}

/// Appending digits never shrinks the value of a digit string.
proof fn lemma_digits_val_prefix_bound(s: Seq<char>, k: int)
    requires
        all_digits(s),
        0 <= k <= s.len(),
    ensures
        digits_val(s) >= digits_val(s.subrange(0, k)),
    decreases s.len() - k,
{
    if k == s.len() {
        assert(s.subrange(0, k) =~= s);
    } else {
        let pre = s.subrange(0, k);
        let pre2 = s.subrange(0, k + 1);
        assert(pre2.drop_last() =~= pre);
        assert(all_digits(pre));
        lemma_digits_val_nonneg(pre);
        assert(is_digit(s[k]));
        assert(digits_val(pre2) == digits_val(pre) * 10 + digit_val(s[k]));
        lemma_digits_val_prefix_bound(s, k + 1);
    }
}

/// Parse a signed decimal integer, yielding 0 for anything `i64::from_str`
/// would reject (including overflow).
pub fn to_int(value: &str) -> (r: i64)
    ensures
        r == spec_to_int(value@),
{
    let ghost s = value@;
    let n = value.unicode_len();
    let mut start: usize = 0;
    let mut negative: bool = false;
    if n > 0 {
        let c0 = value.get_char(0);
        if c0 == '-' {
            negative = true;
            start = 1;
        } else if c0 == '+' {
            start = 1;
        }
    }
    proof {
        assert(int_body(s) =~= s.subrange(start as int, n as int));
        assert(negative <==> int_sign(s) == -1);
    }
    if start >= n {
        // An empty digit string is not a literal.
        return 0;
    }
    let mut i: usize = start;
    let mut mag: u128 = 0;
    while i < n
        invariant
            start <= i <= n,
            n == s.len(),
            value@ == s,
            int_body(s) == s.subrange(start as int, n as int),
            start < n,
            mag == digits_val(s.subrange(start as int, i as int)),
            mag <= 9223372036854775808u128,
            all_digits(s.subrange(start as int, i as int)),
        decreases n - i,
    {
        let c = value.get_char(i);
        let cu = c as u32;
        if cu < 48 || cu > 57 {
            proof {
                assert(int_body(s)[i - start] == s[i as int]);
                assert(!all_digits(int_body(s)));
            }
            return 0;
        }
        let d: u128 = (cu - 48) as u128;
        let m2: u128 = mag * 10 + d;
        proof {
            let pre = s.subrange(start as int, i as int);
            let pre2 = s.subrange(start as int, i + 1);
            assert(pre2.drop_last() =~= pre);
            assert(pre2.last() == s[i as int]);
            assert(digits_val(pre2) == digits_val(pre) * 10 + digit_val(s[i as int]));
            assert forall|j: int| 0 <= j < pre2.len() implies is_digit(#[trigger] pre2[j]) by {
                if j < pre.len() {
                    assert(pre2[j] == pre[j]);
                } else {
                    assert(pre2[j] == s[i as int]);
                }
            }
        }
        if m2 > 9223372036854775808u128 {
            // The magnitude already exceeds every i64; more digits only grow
            // it, so the literal is out of range whatever follows.
            proof {
                let body = int_body(s);
                if is_i64_literal(s) {
                    lemma_digits_val_prefix_bound(body, i + 1 - start);
                    assert(body.subrange(0, i + 1 - start) =~= s.subrange(start as int, i + 1));
                    assert(digits_val(body) > 9223372036854775808);
                    assert(int_sign(s) * digits_val(body) > i64::MAX || int_sign(s) * digits_val(
                        body,
                    ) < i64::MIN);
                }
            }
            return 0;
        }
        mag = m2;
        i += 1;
    }
    proof {
        assert(s.subrange(start as int, n as int) =~= int_body(s));
        lemma_digits_val_nonneg(int_body(s));
    }
    if negative {
        proof {
            assert(int_sign(s) * digits_val(int_body(s)) == -(mag as int));
            assert(is_i64_literal(s));
        }
        (-(mag as i128)) as i64
    } else {
        if mag > 9223372036854775807u128 {
            // +9223372036854775808 does not fit in an i64.
            proof {
                assert(int_sign(s) * digits_val(int_body(s)) > i64::MAX);
                assert(!is_i64_literal(s));
            }
            return 0;
        }
        proof {
            assert(is_i64_literal(s));
        }
        mag as i64
    }
}

pub open spec fn acc_token() -> Seq<char> {
    seq!['a', 'c', 'c']
}

pub open spec fn jmp_token() -> Seq<char> {
    seq!['j', 'm', 'p']
}

/// What a pair of tokens means: `acc` and `jmp` name themselves, any other
/// opcode token is read as a `nop`.
pub open spec fn spec_to_operation(op_type: Seq<char>, operand: Seq<char>) -> OP {
    if op_type == acc_token() {
        OP::Acc(spec_to_int(operand) as i64)
    } else if op_type == jmp_token() {
        OP::Jmp(spec_to_int(operand) as i64)
    } else {
        OP::Nop(spec_to_int(operand) as i64)
    }
}

/// Map an opcode token and an operand token to an instruction.
pub fn to_operation(op_type: &str, operand: &str) -> (r: OP)
    ensures
        r == spec_to_operation(op_type@, operand@),
{
    let num = to_int(operand);
    let n = op_type.unicode_len();
    if n == 3 {
        let c0 = op_type.get_char(0);
        let c1 = op_type.get_char(1);
        let c2 = op_type.get_char(2);
        if c0 == 'a' && c1 == 'c' && c2 == 'c' {
            proof {
                assert(op_type@ =~= acc_token());
            }
            return OP::Acc(num);
        }
        if c0 == 'j' && c1 == 'm' && c2 == 'p' {
            proof {
                assert(op_type@ =~= jmp_token());
            }
            return OP::Jmp(num);
        }
    }
    proof {
        if op_type@ == acc_token() {
            assert(op_type@.len() == 3);
            assert(op_type@[0] == 'a' && op_type@[1] == 'c' && op_type@[2] == 'c');
        }
        if op_type@ == jmp_token() {
            assert(op_type@.len() == 3);
            assert(op_type@[0] == 'j' && op_type@[1] == 'm' && op_type@[2] == 'p');
        }
    }
    OP::Nop(num)
}

/// Where the opcode token ends: the first space, or the end of the line.
pub open spec fn split_index(s: Seq<char>) -> int {
    match s.index_of_first(' ') {
        Some(i) => i,
        None => s.len() as int,
    }
}

pub open spec fn op_token(s: Seq<char>) -> Seq<char> {
    s.subrange(0, split_index(s))
}

pub open spec fn operand_token(s: Seq<char>) -> Seq<char> {
    if split_index(s) < s.len() {
        s.subrange(split_index(s) + 1, s.len() as int)
    } else {
        Seq::empty()
    }
}

/// The instruction one line denotes.
pub open spec fn spec_parse_line(s: Seq<char>) -> OP {
    spec_to_operation(op_token(s), operand_token(s))
}

/// Parse one line: the token before the first space names the opcode, the
/// rest of the line is the operand.
pub fn parse_line(line: &str) -> (r: OP)
    ensures
        r == spec_parse_line(line@),
{
    let ghost s = line@;
    let n = line.unicode_len();
    let mut i: usize = 0;
    while i < n && line.get_char(i) != ' '
        invariant
            0 <= i <= n,
            n == s.len(),
            line@ == s,
            forall|j: int| 0 <= j < i ==> s[j] != ' ',
        decreases n - i,
    {
        i += 1;
    }
    proof {
        s.index_of_first_ensures(' ');
        if i < n {
            assert(s[i as int] == ' ');
            assert(s.contains(' '));
            let idx = s.index_of_first(' ').unwrap();
            assert(idx == i as int);
        } else {
            if s.contains(' ') {
                let w = choose|j: int| 0 <= j < s.len() && s[j] == ' ';
                assert(s[w] != ' ');
            }
        }
        assert(split_index(s) == i as int);
    }
    let op = line.substring_char(0, i);
    let num_str = if i < n {
        line.substring_char(i + 1, n)
    } else {
        line.substring_char(n, n)
    };
    proof {
        assert(op@ == op_token(s));
        if i < n {
            assert(num_str@ == operand_token(s));
        } else {
            assert(num_str@ =~= operand_token(s));
        }
    }
    to_operation(op, num_str)
}

/// Parse a whole program, one instruction per line.
pub fn parse_program(lines: &Vec<String>) -> (r: Vec<OP>)
    ensures
        r@.len() == lines@.len(),
        forall|i: int| 0 <= i < lines@.len() ==> r@[i] == spec_parse_line(#[trigger] lines@[i]@),
{
    let mut r: Vec<OP> = Vec::new();
    let mut i: usize = 0;
    while i < lines.len()
        invariant
            0 <= i <= lines@.len(),
            r@.len() == i,
            forall|j: int| 0 <= j < i ==> r@[j] == spec_parse_line(#[trigger] lines@[j]@),
        decreases lines@.len() - i,
    {
        let op = parse_line(lines[i].as_str());
        r.push(op);
        i += 1;
    }
    r
}

} // verus!
