//! The run-time representation of snake values, shared by the code
//! generator (which encodes them) and the run-time support (which prints
//! them).
use vstd::prelude::*;
use crate::text::{int_text, hex_text, int_to_string, hex_to_string};

verus! {

/// A snake value as the compiled code holds it in a 64-bit word: numbers
/// are shifted left by one (tag bit 0), booleans have tag bit 1.
#[derive(PartialEq, Eq, Structural, Copy, Clone)]
pub struct SnakeVal(pub u64);

/// The run-time errors that compiled code reports, with their codes
/// `0`-`4` in declaration order.
#[derive(PartialEq, Eq, Structural, Copy, Clone, Debug)]
pub enum SnakeErr {
    Overflow,
    ArithExpectedNum,
    CmpExpectedNum,
    LogExpectedBool,
    IfExpectedBool,
}

pub open spec fn bool_tag() -> u64 { 0x00_00_00_00_00_00_00_01 }
pub open spec fn snake_tru() -> u64 { 0xFF_FF_FF_FF_FF_FF_FF_FF }
pub open spec fn snake_fls() -> u64 { 0x7F_FF_FF_FF_FF_FF_FF_FF }
pub open spec fn bool_mask() -> u64 { 0x80_00_00_00_00_00_00_00 }

/// The two's-complement reading of a 64-bit word.
pub open spec fn signed_of(x: u64) -> int {
    if x < 0x8000_0000_0000_0000 { x as int } else { x as int - 0x1_0000_0000_0000_0000 }
}

/// The 64-bit word holding the number `n` (valid for 63-bit `n`).
pub open spec fn num_word(n: int) -> u64 {
    if n >= 0 { (2 * n) as u64 } else { (2 * n + 0x1_0000_0000_0000_0000) as u64 }
}

/// The 64-bit word holding the boolean `b`.
pub open spec fn bool_word(b: bool) -> u64 {
    if b { snake_tru() } else { snake_fls() }
}

/// The smallest and largest numbers that fit in 63 bits.
pub open spec fn min_snake_num() -> int { -0x4000_0000_0000_0000 }
pub open spec fn max_snake_num() -> int { 0x3FFF_FFFF_FFFF_FFFF }

/// What the run-time support prints for a word.
pub open spec fn snake_val_text(x: u64) -> Seq<char> {
    if x % 2 == 0 {
        int_text(signed_of(x) / 2)
    } else if x == snake_tru() {
        "true"@
    } else if x == snake_fls() {
        "false"@
    } else {
        "Invalid snake value 0x"@ + hex_text(x as nat)
    }
}

/// The error code that compiled code passes for an error.
pub open spec fn err_code(e: SnakeErr) -> u64 {
    match e {
        SnakeErr::Overflow => 0,
        SnakeErr::ArithExpectedNum => 1,
        SnakeErr::CmpExpectedNum => 2,
        SnakeErr::LogExpectedBool => 3,
        SnakeErr::IfExpectedBool => 4,
    }
}

/// The error that compiled code signals with a code, if the code is one.
pub fn snake_err_of_code(c: u64) -> (e: Option<SnakeErr>)
    ensures
        c <= 4 <==> e is Some,
        e matches Some(e) ==> err_code(e) == c,
{
    if c == 0 { Some(SnakeErr::Overflow) }
    else if c == 1 { Some(SnakeErr::ArithExpectedNum) }
    else if c == 2 { Some(SnakeErr::CmpExpectedNum) }
    else if c == 3 { Some(SnakeErr::LogExpectedBool) }
    else if c == 4 { Some(SnakeErr::IfExpectedBool) }
    else { None }
}

/// Reinterprets the bits of an unsigned word as a signed number.
pub fn unsigned_to_signed(x: u64) -> (i: i64)
    ensures
        i as int == signed_of(x),
{
    let i = x as i64;
    assert(x < 0x8000_0000_0000_0000 ==> (x as i64) as int == x as int) by (bit_vector);
    assert(x >= 0x8000_0000_0000_0000 ==> (x as i64) as int == x as int - 0x1_0000_0000_0000_0000)
        by (bit_vector);
    i
}

/// The text that the run-time support prints for a word.
pub fn sprint_snake_val(x: SnakeVal) -> (s: String)
    ensures
        s@ == snake_val_text(x.0),
{
    let w = x.0;
    assert(w & 1 == 0 <==> w % 2 == 0) by (bit_vector);
    if w & 1 == 0 {
        let i = unsigned_to_signed(w);
        let h = i >> 1;
        assert(w & 1 == 0 ==> ((w as i64) >> 1) as int * 2 == (w as i64) as int) by (bit_vector);
        assert(w & 1 == 0 ==> (w as i64) >> 1 == ((w as i64) >> 1)) by (bit_vector);
        assert(w < 0x8000_0000_0000_0000 ==> (w as i64) as int == w as int) by (bit_vector);
        assert(w >= 0x8000_0000_0000_0000 ==> (w as i64) as int == w as int - 0x1_0000_0000_0000_0000)
            by (bit_vector);
        assert((w as i64) as int == i as int);
        let ghost sv = signed_of(w);
        assert(sv / 2 == h as int) by (nonlinear_arith)
            requires
                sv == h as int * 2,
        ;
        int_to_string(h)
    } else if w == 0xFF_FF_FF_FF_FF_FF_FF_FF {
        String::from_str("true")
    } else if w == 0x7F_FF_FF_FF_FF_FF_FF_FF {
        String::from_str("false")
    } else {
        let mut s = String::from_str("Invalid snake value 0x");
        s.append(hex_to_string(w).as_str());
        s
    }
}

/// What the run-time support reports when compiled code signals `e` about
/// the value `v`.
pub open spec fn error_text(e: SnakeErr, v: u64) -> Seq<char> {
    match e {
        SnakeErr::Overflow => "Operation overflowed"@,
        SnakeErr::ArithExpectedNum => "arithmetic expected a number, got "@ + snake_val_text(v),
        SnakeErr::CmpExpectedNum => "comparison expected a number, got "@ + snake_val_text(v),
        SnakeErr::LogExpectedBool => "logic expected a boolean, got "@ + snake_val_text(v),
        SnakeErr::IfExpectedBool => "if expected a boolean, got "@ + snake_val_text(v),
    }
}

/// The report of a run-time error.
pub fn snake_error_text(ecode: SnakeErr, v1: SnakeVal) -> (s: String)
    ensures
        s@ == error_text(ecode, v1.0),
{
    let mut s = match ecode {
        SnakeErr::Overflow => {
            return String::from_str("Operation overflowed");
        },
        SnakeErr::ArithExpectedNum => String::from_str("arithmetic expected a number, got "),
        SnakeErr::CmpExpectedNum => String::from_str("comparison expected a number, got "),
        SnakeErr::LogExpectedBool => String::from_str("logic expected a boolean, got "),
        SnakeErr::IfExpectedBool => String::from_str("if expected a boolean, got "),
    };
    s.append(sprint_snake_val(v1).as_str());
    s
}

/// A number that fits in 63 bits is printed back as itself from the word
/// that holds it, and a boolean as `true` or `false`.
pub proof fn lemma_encoding_round_trip(n: int, b: bool)
    requires
        min_snake_num() <= n <= max_snake_num(),
    ensures
        snake_val_text(num_word(n)) == int_text(n),
        snake_val_text(bool_word(b)) == if b { "true"@ } else { "false"@ },
{
}

} // verus!
