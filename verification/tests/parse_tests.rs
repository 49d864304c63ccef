use boot_repair::ops::OP;
use boot_repair::parse::{parse_line, parse_program, to_int, to_operation};

#[test]
fn to_int_plain_and_signed() {
    assert_eq!(to_int("42"), 42);
    assert_eq!(to_int("+1"), 1);
    assert_eq!(to_int("-99"), -99);
    assert_eq!(to_int("+0"), 0);
    assert_eq!(to_int("-0"), 0);
}

#[test]
fn to_int_lenient_fallback_to_zero() {
    assert_eq!(to_int(""), 0);
    assert_eq!(to_int("abc"), 0);
    assert_eq!(to_int("12a"), 0);
    assert_eq!(to_int("+"), 0);
    assert_eq!(to_int("-"), 0);
    assert_eq!(to_int("|5"), 0);
    assert_eq!(to_int(" 5"), 0);
    assert_eq!(to_int("5 "), 0);
}

#[test]
fn to_int_extremes_and_overflow() {
    assert_eq!(to_int("9223372036854775807"), i64::MAX);
    assert_eq!(to_int("-9223372036854775808"), i64::MIN);
    assert_eq!(to_int("+9223372036854775807"), i64::MAX);
    assert_eq!(to_int("9223372036854775808"), 0);
    assert_eq!(to_int("+9223372036854775808"), 0);
    assert_eq!(to_int("-9223372036854775809"), 0);
    assert_eq!(to_int("99999999999999999999999999999999999999"), 0);
}

#[test]
fn to_operation_known_opcodes() {
    assert_eq!(to_operation("acc", "+1"), OP::Acc(1));
    assert_eq!(to_operation("jmp", "-3"), OP::Jmp(-3));
    assert_eq!(to_operation("nop", "+0"), OP::Nop(0));
}

#[test]
fn to_operation_unrecognized_token_is_nop() {
    assert_eq!(to_operation("xyz", "+7"), OP::Nop(7));
    assert_eq!(to_operation("ACC", "+1"), OP::Nop(1));
    assert_eq!(to_operation("", "-2"), OP::Nop(-2));
}

#[test]
fn parse_line_two_token_grammar() {
    assert_eq!(parse_line("acc +1"), OP::Acc(1));
    assert_eq!(parse_line("jmp -3"), OP::Jmp(-3));
    assert_eq!(parse_line("nop +0"), OP::Nop(0));
}

#[test]
fn parse_line_lenient_cases() {
    assert_eq!(parse_line("foo"), OP::Nop(0));
    assert_eq!(parse_line("acc"), OP::Acc(0));
    assert_eq!(parse_line("acc +1 extra"), OP::Acc(0));
    assert_eq!(parse_line("acc x"), OP::Acc(0));
    assert_eq!(parse_line(""), OP::Nop(0));
}

#[test]
fn parse_program_maps_every_line() {
    let lines = vec![
        "nop +0".to_string(),
        "acc +1".to_string(),
        "jmp +4".to_string(),
        "wat -5".to_string(),
    ];
    let program = parse_program(&lines);
    assert_eq!(program, vec![OP::Nop(0), OP::Acc(1), OP::Jmp(4), OP::Nop(-5)]);
}
