use snake::interp::{InterpErr, SnakeVal as Val};
use snake::runtime::{snake_err_of_code, snake_error_text, sprint_snake_val, unsigned_to_signed, SnakeErr, SnakeVal};
use snake::text::{hex_padded_to_string, hex_to_string, int_to_string, nat_to_string, signed_to_string};

#[test]
fn numbers_are_stored_shifted_left() {
    assert_eq!(sprint_snake_val(SnakeVal(4)), "2");
    assert_eq!(sprint_snake_val(SnakeVal(0)), "0");
    assert_eq!(sprint_snake_val(SnakeVal(0xFFFF_FFFF_FFFF_FFFE)), "-1");
}

#[test]
fn booleans_print_as_words() {
    assert_eq!(sprint_snake_val(SnakeVal(0xFFFF_FFFF_FFFF_FFFF)), "true");
    assert_eq!(sprint_snake_val(SnakeVal(0x7FFF_FFFF_FFFF_FFFF)), "false");
}

#[test]
fn other_odd_words_are_invalid() {
    assert_eq!(sprint_snake_val(SnakeVal(3)), "Invalid snake value 0x3");
}

#[test]
fn printing_agrees_with_the_interpreter() {
    for n in [0i64, 1, -1, 4611686018427387903, -4611686018427387904, 12345] {
        let word = (n as u64).wrapping_mul(2);
        assert_eq!(sprint_snake_val(SnakeVal(word)), Val::Num(n).describe());
    }
    assert_eq!(sprint_snake_val(SnakeVal(0xFFFF_FFFF_FFFF_FFFF)), Val::Bool(true).describe());
    assert_eq!(sprint_snake_val(SnakeVal(0x7FFF_FFFF_FFFF_FFFF)), Val::Bool(false).describe());
}

#[test]
fn words_reinterpret_as_signed() {
    assert_eq!(unsigned_to_signed(0xFFFF_FFFF_FFFF_FFFF), -1);
    assert_eq!(unsigned_to_signed(5), 5);
    assert_eq!(unsigned_to_signed(0x8000_0000_0000_0000), i64::MIN);
}

#[test]
fn error_codes_name_errors() {
    assert!(matches!(snake_err_of_code(0), Some(SnakeErr::Overflow)));
    assert!(matches!(snake_err_of_code(4), Some(SnakeErr::IfExpectedBool)));
    assert!(snake_err_of_code(5).is_none());
}

#[test]
fn numbers_print_in_decimal_and_hex() {
    assert_eq!(nat_to_string(0), "0");
    assert_eq!(nat_to_string(18446744073709551615), "18446744073709551615");
    assert_eq!(int_to_string(i64::MIN), "-9223372036854775808");
    assert_eq!(signed_to_string(5), "+5");
    assert_eq!(signed_to_string(-5), "-5");
    assert_eq!(hex_to_string(255), "ff");
    assert_eq!(hex_padded_to_string(1, 8), "00000001");
}

#[test]
fn interpreter_errors_describe_themselves() {
    let e = InterpErr::ExpectedNum { who: String::from("arithmetic"), got: Val::Bool(true), msg: String::from("+") };
    assert_eq!(e.describe(), "arithmetic expected a number, but got true in +");
    let e = InterpErr::ExpectedBool { who: String::from("if"), got: Val::Num(3), msg: String::from("if") };
    assert_eq!(e.describe(), "if expected a boolean, but got 3 in if");
    assert_eq!(InterpErr::Overflow { msg: String::from("1 + 2 = 3") }.describe(), "Operation 1 + 2 = 3 overflowed");
    assert_eq!(InterpErr::Write { msg: String::from("closed") }.describe(), "I/O Error when printing: closed");
}

#[test]
fn runtime_errors_name_the_value() {
    assert_eq!(snake_error_text(SnakeErr::Overflow, SnakeVal(0)), "Operation overflowed");
    assert_eq!(snake_error_text(SnakeErr::ArithExpectedNum, SnakeVal(0xFFFF_FFFF_FFFF_FFFF)), "arithmetic expected a number, got true");
    assert_eq!(snake_error_text(SnakeErr::IfExpectedBool, SnakeVal(6)), "if expected a boolean, got 3");
}
