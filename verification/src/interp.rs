//! The reference interpreter: an abstract machine over surface expressions
//! whose continuation is an explicit stack, so that deep programs need no
//! deep recursion. Each step is a function from machine state to the next
//! state; printing is handed back to the caller as an action.
use vstd::prelude::*;
use crate::syntax::{Exp, Prim1, Prim2, FunDecl, SurfProg};
use crate::list::{List, assoc};
use crate::vecmap::VecMap;
use crate::view_eq::ViewEq;
use crate::text::{int_text, int_to_string, dec_text, nat_to_string};
use vstd::wrapping::i64_specs::{wrapping_add, wrapping_sub, wrapping_mul};
use crate::runtime::{num_word, bool_word, snake_val_text, lemma_encoding_round_trip};

verus! {

/// A value of the language.
#[derive(Clone, Copy, Debug, PartialEq, Eq, Structural)]
pub enum SnakeVal {
    /// A number (of 63 bits, in a well-behaved program).
    Num(i64),
    Bool(bool),
}

impl View for SnakeVal {
    type V = SnakeVal;

    open spec fn view(&self) -> SnakeVal {
        *self
    }
}

impl ViewEq for SnakeVal {
    fn eq_view(&self, other: &Self) -> (b: bool) {
        *self == *other
    }

    fn copy_view(&self) -> (c: Self) {
        *self
    }
}

/// How a value is printed: a number in decimal, a boolean as a word.
pub open spec fn val_text(v: SnakeVal) -> Seq<char> {
    match v {
        SnakeVal::Num(n) => int_text(n as int),
        SnakeVal::Bool(b) => if b { "true"@ } else { "false"@ },
    }
}

impl SnakeVal {
    /// The printed form of the value.
    pub fn describe(&self) -> (s: String)
        ensures
            s@ == val_text(*self),
    {
        match self {
            SnakeVal::Num(n) => int_to_string(*n),
            SnakeVal::Bool(b) => {
                if *b {
                    String::from_str("true")
                } else {
                    String::from_str("false")
                }
            },
        }
    }
}

/// What goes wrong while interpreting.
#[derive(Clone, Debug, PartialEq, Eq)]
pub enum InterpErr {
    ExpectedNum { who: String, got: SnakeVal, msg: String },
    ExpectedBool { who: String, got: SnakeVal, msg: String },
    Overflow { msg: String },
    Write { msg: String },
}

/// An interpreter error, its texts taken by their views.
pub enum ErrV {
    ExpectedNum(Seq<char>, SnakeVal, Seq<char>),
    ExpectedBool(Seq<char>, SnakeVal, Seq<char>),
    Overflow(Seq<char>),
    Write(Seq<char>),
}

impl View for InterpErr {
    type V = ErrV;

    open spec fn view(&self) -> ErrV {
        match *self {
            InterpErr::ExpectedNum { who, got, msg } => ErrV::ExpectedNum(who@, got, msg@),
            InterpErr::ExpectedBool { who, got, msg } => ErrV::ExpectedBool(who@, got, msg@),
            InterpErr::Overflow { msg } => ErrV::Overflow(msg@),
            InterpErr::Write { msg } => ErrV::Write(msg@),
        }
    }
}

/// The message of an error.
pub open spec fn interp_err_text(e: ErrV) -> Seq<char> {
    match e {
        ErrV::ExpectedNum(who, v, msg) => who + " expected a number, but got "@ + val_text(v) + " in "@ + msg,
        ErrV::ExpectedBool(who, v, msg) => who + " expected a boolean, but got "@ + val_text(v) + " in "@ + msg,
        ErrV::Overflow(msg) => "Operation "@ + msg + " overflowed"@,
        ErrV::Write(msg) => "I/O Error when printing: "@ + msg,
    }
}

impl InterpErr {
    /// The message of the error.
    pub fn describe(&self) -> (s: String)
        ensures
            s@ == interp_err_text(self@),
    {
        match self {
            InterpErr::ExpectedNum { who, got, msg } => {
                let mut s = who.clone();
                s.append(" expected a number, but got ");
                s.append(got.describe().as_str());
                s.append(" in ");
                s.append(msg.as_str());
                s
            },
            InterpErr::ExpectedBool { who, got, msg } => {
                let mut s = who.clone();
                s.append(" expected a boolean, but got ");
                s.append(got.describe().as_str());
                s.append(" in ");
                s.append(msg.as_str());
                s
            },
            InterpErr::Overflow { msg } => {
                let mut s = String::from_str("Operation ");
                s.append(msg.as_str());
                s.append(" overflowed");
                s
            },
            InterpErr::Write { msg } => {
                let mut s = String::from_str("I/O Error when printing: ");
                s.append(msg.as_str());
                s
            },
        }
    }
}

/// A result with its error taken by its view.
pub open spec fn rv<T>(r: Result<T, InterpErr>) -> Result<T, ErrV> {
    match r {
        Ok(x) => Ok(x),
        Err(e) => Err(e@),
    }
}

/* Primitive operations */

pub open spec fn as_bool(v: SnakeVal, who: Seq<char>, msg: Seq<char>) -> Result<bool, ErrV> {
    match v {
        SnakeVal::Bool(b) => Ok(b),
        _ => Err(ErrV::ExpectedBool(who, v, msg)),
    }
}

pub open spec fn as_num(v: SnakeVal, who: Seq<char>, msg: Seq<char>) -> Result<i64, ErrV> {
    match v {
        SnakeVal::Num(n) => Ok(n),
        _ => Err(ErrV::ExpectedNum(who, v, msg)),
    }
}

fn bool(v: SnakeVal, who: &str, msg: &str) -> (r: Result<bool, InterpErr>)
    ensures
        rv(r) == as_bool(v, who@, msg@),
{
    match v {
        SnakeVal::Bool(b) => Ok(b),
        _ => Err(InterpErr::ExpectedBool { who: String::from_str(who), got: v, msg: String::from_str(msg) }),
    }
}

fn num(v: SnakeVal, who: &str, msg: &str) -> (r: Result<i64, InterpErr>)
    ensures
        rv(r) == as_num(v, who@, msg@),
{
    match v {
        SnakeVal::Num(n) => Ok(n),
        _ => Err(InterpErr::ExpectedNum { who: String::from_str(who), got: v, msg: String::from_str(msg) }),
    }
}

/// The largest and smallest numbers of the language (63 bits).
pub open spec fn max_int() -> int { 0x3FFF_FFFF_FFFF_FFFF }
pub open spec fn min_int() -> int { -0x4000_0000_0000_0000 }

pub open spec fn out_of_bounds_spec(n: int) -> bool {
    n > max_int() || n < min_int()
}

fn out_of_bounds(n: i64) -> (b: bool)
    ensures
        b == out_of_bounds_spec(n as int),
{
    n > 0x3FFF_FFFF_FFFF_FFFF || n < -0x4000_0000_0000_0000
}

/// `op` applied to two 64-bit numbers as the machine does: the wrapped
/// result, and whether the exact one was out of range.
pub open spec fn overflowing(exact: int, wrapped: i64) -> (i64, bool) {
    (wrapped, exact > i64::MAX || exact < i64::MIN)
}

/// The outcome of an arithmetic operation whose machine result is `res`.
pub open spec fn arith_outcome(n1: i64, n2: i64, res: (i64, bool), op: Seq<char>) -> Result<SnakeVal, ErrV> {
    if res.1 || out_of_bounds_spec(res.0 as int) {
        Err(ErrV::Overflow(int_text(n1 as int) + " "@ + op + " "@ + int_text(n2 as int) + " = "@ + int_text(res.0 as int)))
    } else {
        Ok(SnakeVal::Num(res.0))
    }
}

fn snake_arith<F>(v1: SnakeVal, v2: SnakeVal, arith: F, op: &str) -> (r: Result<SnakeVal, InterpErr>)
    where
        F: Fn(i64, i64) -> (i64, bool),
    requires
        forall|a: i64, b: i64| #[trigger] arith.requires((a, b)),
    ensures
        match (v1, v2) {
            (SnakeVal::Num(n1), SnakeVal::Num(n2)) =>
                exists|res: (i64, bool)| arith.ensures((n1, n2), res) && rv(r) == arith_outcome(n1, n2, res, op@),
            (SnakeVal::Num(_), _) => rv(r) == Err::<SnakeVal, ErrV>(ErrV::ExpectedNum("arithmetic"@, v2, op@)),
            _ => rv(r) == Err::<SnakeVal, ErrV>(ErrV::ExpectedNum("arithmetic"@, v1, op@)),
        },
{
    let n1 = match num(v1, "arithmetic", op) {
        Ok(n) => n,
        Err(e) => {
            return Err(e);
        },
    };
    let n2 = match num(v2, "arithmetic", op) {
        Ok(n) => n,
        Err(e) => {
            return Err(e);
        },
    };
    let (n3, overflow) = arith(n1, n2);
    if overflow || out_of_bounds(n3) {
        let mut m = int_to_string(n1);
        m.append(" ");
        m.append(op);
        m.append(" ");
        m.append(int_to_string(n2).as_str());
        m.append(" = ");
        m.append(int_to_string(n3).as_str());
        proof {
            assert(rv(Err::<SnakeVal, InterpErr>(InterpErr::Overflow { msg: m })) == arith_outcome(n1, n2, (n3, overflow), op@));
        }
        Err(InterpErr::Overflow { msg: m })
    } else {
        Ok(SnakeVal::Num(n3))
    }
}

fn snake_log<F>(v1: SnakeVal, v2: SnakeVal, log: F, op: &str) -> (r: Result<SnakeVal, InterpErr>)
    where
        F: Fn(bool, bool) -> bool,
    requires
        forall|a: bool, b: bool| #[trigger] log.requires((a, b)),
    ensures
        match (v1, v2) {
            (SnakeVal::Bool(b1), SnakeVal::Bool(b2)) =>
                exists|b: bool| log.ensures((b1, b2), b) && r == Ok::<SnakeVal, InterpErr>(SnakeVal::Bool(b)),
            (SnakeVal::Bool(_), _) => rv(r) == Err::<SnakeVal, ErrV>(ErrV::ExpectedBool("logic"@, v2, op@)),
            _ => rv(r) == Err::<SnakeVal, ErrV>(ErrV::ExpectedBool("logic"@, v1, op@)),
        },
{
    let b1 = match bool(v1, "logic", op) {
        Ok(b) => b,
        Err(e) => {
            return Err(e);
        },
    };
    let b2 = match bool(v2, "logic", op) {
        Ok(b) => b,
        Err(e) => {
            return Err(e);
        },
    };
    Ok(SnakeVal::Bool(log(b1, b2)))
}

fn snake_cmp<F>(v1: SnakeVal, v2: SnakeVal, cmp: F, op: &str) -> (r: Result<SnakeVal, InterpErr>)
    where
        F: Fn(i64, i64) -> bool,
    requires
        forall|a: i64, b: i64| #[trigger] cmp.requires((a, b)),
    ensures
        match (v1, v2) {
            (SnakeVal::Num(n1), SnakeVal::Num(n2)) =>
                exists|b: bool| cmp.ensures((n1, n2), b) && r == Ok::<SnakeVal, InterpErr>(SnakeVal::Bool(b)),
            (SnakeVal::Num(_), _) => rv(r) == Err::<SnakeVal, ErrV>(ErrV::ExpectedNum("comparison"@, v2, op@)),
            _ => rv(r) == Err::<SnakeVal, ErrV>(ErrV::ExpectedNum("comparison"@, v1, op@)),
        },
{
    let n1 = match num(v1, "comparison", op) {
        Ok(n) => n,
        Err(e) => {
            return Err(e);
        },
    };
    let n2 = match num(v2, "comparison", op) {
        Ok(n) => n,
        Err(e) => {
            return Err(e);
        },
    };
    Ok(SnakeVal::Bool(cmp(n1, n2)))
}

/// The result of a unary primitive. Printing gives back its argument (the
/// printing itself is the caller's).
pub open spec fn prim1_spec(p: Prim1, v: SnakeVal) -> Result<SnakeVal, ErrV> {
    match p {
        Prim1::Add1 => match v {
            SnakeVal::Num(n) => arith_outcome(n, 1, overflowing(n + 1, wrapping_add(n, 1)), "add1"@),
            _ => Err(ErrV::ExpectedNum("arithmetic"@, v, "add1"@)),
        },
        Prim1::Sub1 => match v {
            SnakeVal::Num(n) => arith_outcome(n, 1, overflowing(n - 1, wrapping_sub(n, 1)), "sub1"@),
            _ => Err(ErrV::ExpectedNum("arithmetic"@, v, "sub1"@)),
        },
        Prim1::Not => match v {
            SnakeVal::Bool(b) => Ok(SnakeVal::Bool(!b)),
            _ => Err(ErrV::ExpectedBool("logic"@, v, "!"@)),
        },
        Prim1::Print | Prim1::PrintStack => Ok(v),
        Prim1::IsBool => Ok(SnakeVal::Bool(v is Bool)),
        Prim1::IsNum => Ok(SnakeVal::Bool(v is Num)),
    }
}

fn add_ovf(a: i64, b: i64) -> (r: (i64, bool))
    ensures
        r == overflowing(a + b, wrapping_add(a, b)),
{
    (a.wrapping_add(b), a.checked_add(b).is_none())
}

fn sub_ovf(a: i64, b: i64) -> (r: (i64, bool))
    ensures
        r == overflowing(a - b, wrapping_sub(a, b)),
{
    (a.wrapping_sub(b), a.checked_sub(b).is_none())
}

fn mul_ovf(a: i64, b: i64) -> (r: (i64, bool))
    ensures
        r == overflowing(a * b, wrapping_mul(a, b)),
{
    (a.wrapping_mul(b), a.checked_mul(b).is_none())
}

pub fn interpret_prim1(p: &Prim1, v: SnakeVal) -> (r: Result<SnakeVal, InterpErr>)
    ensures
        rv(r) == prim1_spec(*p, v),
{
    match p {
        Prim1::Add1 => snake_arith(v, SnakeVal::Num(1), |n1: i64, n2: i64| -> (r: (i64, bool)) ensures r == overflowing(n1 + n2, wrapping_add(n1, n2)) { add_ovf(n1, n2) }, "add1"),
        Prim1::Sub1 => snake_arith(v, SnakeVal::Num(1), |n1: i64, n2: i64| -> (r: (i64, bool)) ensures r == overflowing(n1 - n2, wrapping_sub(n1, n2)) { sub_ovf(n1, n2) }, "sub1"),
        Prim1::Not => match bool(v, "logic", "!") {
            Ok(b) => Ok(SnakeVal::Bool(!b)),
            Err(e) => Err(e),
        },
        Prim1::Print | Prim1::PrintStack => Ok(v),
        Prim1::IsBool => match v {
            SnakeVal::Bool(_) => Ok(SnakeVal::Bool(true)),
            _ => Ok(SnakeVal::Bool(false)),
        },
        Prim1::IsNum => match v {
            SnakeVal::Num(_) => Ok(SnakeVal::Bool(true)),
            _ => Ok(SnakeVal::Bool(false)),
        },
    }
}

/// Both operands as numbers, or the error about the first that is not.
pub open spec fn nums2(v1: SnakeVal, v2: SnakeVal, who: Seq<char>, op: Seq<char>) -> Result<(i64, i64), ErrV> {
    match (v1, v2) {
        (SnakeVal::Num(n1), SnakeVal::Num(n2)) => Ok((n1, n2)),
        (SnakeVal::Num(_), _) => Err(ErrV::ExpectedNum(who, v2, op)),
        _ => Err(ErrV::ExpectedNum(who, v1, op)),
    }
}

pub open spec fn arith2(v1: SnakeVal, v2: SnakeVal, op: Prim2, name: Seq<char>) -> Result<SnakeVal, ErrV> {
    match nums2(v1, v2, "arithmetic"@, name) {
        Ok((n1, n2)) => arith_outcome(n1, n2, match op {
            Prim2::Add => overflowing(n1 + n2, wrapping_add(n1, n2)),
            Prim2::Sub => overflowing(n1 - n2, wrapping_sub(n1, n2)),
            _ => overflowing(n1 * n2, wrapping_mul(n1, n2)),
        }, name),
        Err(e) => Err(e),
    }
}

pub open spec fn cmp2(v1: SnakeVal, v2: SnakeVal, op: Prim2, name: Seq<char>) -> Result<SnakeVal, ErrV> {
    match nums2(v1, v2, "comparison"@, name) {
        Ok((n1, n2)) => Ok(SnakeVal::Bool(match op {
            Prim2::Lt => n1 < n2,
            Prim2::Le => n1 <= n2,
            Prim2::Gt => n1 > n2,
            _ => n1 >= n2,
        })),
        Err(e) => Err(e),
    }
}

pub open spec fn log2(v1: SnakeVal, v2: SnakeVal, op: Prim2, name: Seq<char>) -> Result<SnakeVal, ErrV> {
    match (v1, v2) {
        (SnakeVal::Bool(b1), SnakeVal::Bool(b2)) => Ok(SnakeVal::Bool(if op == Prim2::And { b1 && b2 } else { b1 || b2 })),
        (SnakeVal::Bool(_), _) => Err(ErrV::ExpectedBool("logic"@, v2, name)),
        _ => Err(ErrV::ExpectedBool("logic"@, v1, name)),
    }
}

/// The result of a binary primitive.
pub open spec fn prim2_spec(p: Prim2, v1: SnakeVal, v2: SnakeVal) -> Result<SnakeVal, ErrV> {
    match p {
        Prim2::Add => arith2(v1, v2, p, "+"@),
        Prim2::Sub => arith2(v1, v2, p, "-"@),
        Prim2::Mul => arith2(v1, v2, p, "*"@),
        Prim2::And => log2(v1, v2, p, "&&"@),
        Prim2::Or => log2(v1, v2, p, "||"@),
        Prim2::Lt => cmp2(v1, v2, p, "<"@),
        Prim2::Le => cmp2(v1, v2, p, "<="@),
        Prim2::Gt => cmp2(v1, v2, p, ">"@),
        Prim2::Ge => cmp2(v1, v2, p, ">="@),
        Prim2::Eq => Ok(SnakeVal::Bool(v1 == v2)),
        Prim2::Neq => Ok(SnakeVal::Bool(v1 != v2)),
    }
}

pub fn interpret_prim2(p: &Prim2, v1: SnakeVal, v2: SnakeVal) -> (r: Result<SnakeVal, InterpErr>)
    ensures
        rv(r) == prim2_spec(*p, v1, v2),
{
    match p {
        Prim2::Add => snake_arith(v1, v2, |n1: i64, n2: i64| -> (r: (i64, bool)) ensures r == overflowing(n1 + n2, wrapping_add(n1, n2)) { add_ovf(n1, n2) }, "+"),
        Prim2::Sub => snake_arith(v1, v2, |n1: i64, n2: i64| -> (r: (i64, bool)) ensures r == overflowing(n1 - n2, wrapping_sub(n1, n2)) { sub_ovf(n1, n2) }, "-"),
        Prim2::Mul => snake_arith(v1, v2, |n1: i64, n2: i64| -> (r: (i64, bool)) ensures r == overflowing(n1 * n2, wrapping_mul(n1, n2)) { mul_ovf(n1, n2) }, "*"),
        Prim2::And => snake_log(v1, v2, |b1: bool, b2: bool| -> (r: bool) ensures r == (b1 && b2) { b1 && b2 }, "&&"),
        Prim2::Or => snake_log(v1, v2, |b1: bool, b2: bool| -> (r: bool) ensures r == (b1 || b2) { b1 || b2 }, "||"),
        Prim2::Lt => snake_cmp(v1, v2, |n1: i64, n2: i64| -> (r: bool) ensures r == (n1 < n2) { n1 < n2 }, "<"),
        Prim2::Le => snake_cmp(v1, v2, |n1: i64, n2: i64| -> (r: bool) ensures r == (n1 <= n2) { n1 <= n2 }, "<="),
        Prim2::Gt => snake_cmp(v1, v2, |n1: i64, n2: i64| -> (r: bool) ensures r == (n1 > n2) { n1 > n2 }, ">"),
        Prim2::Ge => snake_cmp(v1, v2, |n1: i64, n2: i64| -> (r: bool) ensures r == (n1 >= n2) { n1 >= n2 }, ">="),
        Prim2::Eq => Ok(SnakeVal::Bool(v1 == v2)),
        Prim2::Neq => Ok(SnakeVal::Bool(v1 != v2)),
    }
}

/* Laws */

/// The word that holds a value in compiled code.
pub open spec fn encode(v: SnakeVal) -> u64 {
    match v {
        SnakeVal::Num(n) => num_word(n as int),
        SnakeVal::Bool(b) => bool_word(b),
    }
}

/// A value of the language fits its word: a boolean, or a number of 63
/// bits.
pub open spec fn in_range(v: SnakeVal) -> bool {
    v matches SnakeVal::Num(n) ==> min_int() <= n <= max_int()
}

/// Compiled code prints a value exactly as the interpreter does.
pub proof fn lemma_print_agrees(v: SnakeVal)
    requires
        in_range(v),
    ensures
        snake_val_text(encode(v)) == val_text(v),
{
    match v {
        SnakeVal::Num(n) => lemma_encoding_round_trip(n as int, true),
        SnakeVal::Bool(b) => lemma_encoding_round_trip(0, b),
    }
}

/// The primitives never compute a number beyond 63 bits: an arithmetic
/// result out of range is an overflow error.
pub proof fn lemma_prims_in_range(p1: Prim1, p2: Prim2, v1: SnakeVal, v2: SnakeVal)
    ensures
        prim1_spec(p1, v1) matches Ok(v) ==> (in_range(v1) ==> in_range(v)),
        prim2_spec(p2, v1, v2) matches Ok(v) ==> in_range(v),
{
}

/// What the binary primitives compute on numbers and booleans: the
/// comparisons are the strict or non-strict order of the two numbers, left
/// operand first; equality compares the values; the connectives are the
/// boolean ones; arithmetic gives the exact result when it lies within
/// 63 bits and an overflow error otherwise. A comparison or arithmetic on a
/// boolean, or a connective on a number, is refused.
pub proof fn lemma_prim2_values(n1: i64, n2: i64, b1: bool, b2: bool, v: SnakeVal)
    ensures
        prim2_spec(Prim2::Lt, SnakeVal::Num(n1), SnakeVal::Num(n2)) == Ok::<SnakeVal, ErrV>(SnakeVal::Bool(n1 < n2)),
        prim2_spec(Prim2::Le, SnakeVal::Num(n1), SnakeVal::Num(n2)) == Ok::<SnakeVal, ErrV>(SnakeVal::Bool(n1 <= n2)),
        prim2_spec(Prim2::Gt, SnakeVal::Num(n1), SnakeVal::Num(n2)) == Ok::<SnakeVal, ErrV>(SnakeVal::Bool(n1 > n2)),
        prim2_spec(Prim2::Ge, SnakeVal::Num(n1), SnakeVal::Num(n2)) == Ok::<SnakeVal, ErrV>(SnakeVal::Bool(n1 >= n2)),
        prim2_spec(Prim2::Eq, SnakeVal::Num(n1), SnakeVal::Num(n2)) == Ok::<SnakeVal, ErrV>(SnakeVal::Bool(n1 == n2)),
        prim2_spec(Prim2::Neq, SnakeVal::Num(n1), SnakeVal::Num(n2)) == Ok::<SnakeVal, ErrV>(SnakeVal::Bool(n1 != n2)),
        prim2_spec(Prim2::Eq, SnakeVal::Bool(b1), SnakeVal::Bool(b2)) == Ok::<SnakeVal, ErrV>(SnakeVal::Bool(b1 == b2)),
        prim2_spec(Prim2::Eq, SnakeVal::Num(n1), SnakeVal::Bool(b2)) == Ok::<SnakeVal, ErrV>(SnakeVal::Bool(false)),
        prim2_spec(Prim2::And, SnakeVal::Bool(b1), SnakeVal::Bool(b2)) == Ok::<SnakeVal, ErrV>(SnakeVal::Bool(b1 && b2)),
        prim2_spec(Prim2::Or, SnakeVal::Bool(b1), SnakeVal::Bool(b2)) == Ok::<SnakeVal, ErrV>(SnakeVal::Bool(b1 || b2)),
        min_int() <= n1 + n2 <= max_int() ==> prim2_spec(Prim2::Add, SnakeVal::Num(n1), SnakeVal::Num(n2)) == Ok::<SnakeVal, ErrV>(SnakeVal::Num((n1 + n2) as i64)),
        min_int() <= n1 - n2 <= max_int() ==> prim2_spec(Prim2::Sub, SnakeVal::Num(n1), SnakeVal::Num(n2)) == Ok::<SnakeVal, ErrV>(SnakeVal::Num((n1 - n2) as i64)),
        min_int() <= n1 * n2 <= max_int() ==> prim2_spec(Prim2::Mul, SnakeVal::Num(n1), SnakeVal::Num(n2)) == Ok::<SnakeVal, ErrV>(SnakeVal::Num((n1 * n2) as i64)),
        !(min_int() <= n1 + n2 <= max_int()) ==> prim2_spec(Prim2::Add, SnakeVal::Num(n1), SnakeVal::Num(n2)) matches Err(ErrV::Overflow(_)),
        !(min_int() <= n1 - n2 <= max_int()) ==> prim2_spec(Prim2::Sub, SnakeVal::Num(n1), SnakeVal::Num(n2)) matches Err(ErrV::Overflow(_)),
        !(min_int() <= n1 * n2 <= max_int()) ==> prim2_spec(Prim2::Mul, SnakeVal::Num(n1), SnakeVal::Num(n2)) matches Err(ErrV::Overflow(_)),
        prim2_spec(Prim2::Lt, SnakeVal::Bool(b1), v) matches Err(ErrV::ExpectedNum(_, _, _)),
        prim2_spec(Prim2::Add, v, SnakeVal::Bool(b2)) matches Err(ErrV::ExpectedNum(_, _, _)),
        prim2_spec(Prim2::And, SnakeVal::Num(n1), v) matches Err(ErrV::ExpectedBool(_, _, _)),
{
}

/// What the unary primitives compute: one more, one less, negation, the
/// kind tests, and printing giving back its argument.
pub proof fn lemma_prim1_values(n: i64, b: bool, v: SnakeVal)
    ensures
        min_int() <= n + 1 <= max_int() ==> prim1_spec(Prim1::Add1, SnakeVal::Num(n)) == Ok::<SnakeVal, ErrV>(SnakeVal::Num((n + 1) as i64)),
        min_int() <= n - 1 <= max_int() ==> prim1_spec(Prim1::Sub1, SnakeVal::Num(n)) == Ok::<SnakeVal, ErrV>(SnakeVal::Num((n - 1) as i64)),
        !(min_int() <= n + 1 <= max_int()) ==> prim1_spec(Prim1::Add1, SnakeVal::Num(n)) matches Err(ErrV::Overflow(_)),
        !(min_int() <= n - 1 <= max_int()) ==> prim1_spec(Prim1::Sub1, SnakeVal::Num(n)) matches Err(ErrV::Overflow(_)),
        prim1_spec(Prim1::Not, SnakeVal::Bool(b)) == Ok::<SnakeVal, ErrV>(SnakeVal::Bool(!b)),
        prim1_spec(Prim1::IsNum, SnakeVal::Num(n)) == Ok::<SnakeVal, ErrV>(SnakeVal::Bool(true)),
        prim1_spec(Prim1::IsNum, SnakeVal::Bool(b)) == Ok::<SnakeVal, ErrV>(SnakeVal::Bool(false)),
        prim1_spec(Prim1::IsBool, SnakeVal::Bool(b)) == Ok::<SnakeVal, ErrV>(SnakeVal::Bool(true)),
        prim1_spec(Prim1::IsBool, SnakeVal::Num(n)) == Ok::<SnakeVal, ErrV>(SnakeVal::Bool(false)),
        prim1_spec(Prim1::Print, v) == Ok::<SnakeVal, ErrV>(v),
        prim1_spec(Prim1::Not, SnakeVal::Num(n)) matches Err(ErrV::ExpectedBool(_, _, _)),
        prim1_spec(Prim1::Add1, SnakeVal::Bool(b)) matches Err(ErrV::ExpectedNum(_, _, _)),
{
}

/* The abstract machine */

/// The variables in scope, the nearest binding first.
pub type Env = List<(String, SnakeVal)>;

/// An expression to evaluate later, with its variables.
pub struct Closure<'exp, Ann> {
    pub exp: &'exp Exp<Ann>,
    pub env: List<(String, SnakeVal)>,
}

/// What remains to do with the value being computed.
pub enum Stack<'exp, Ann> {
    Done,
    Prim1(Prim1, Box<Stack<'exp, Ann>>),
    Prim2L(Prim2, Closure<'exp, Ann>, Box<Stack<'exp, Ann>>),
    Prim2R(Prim2, SnakeVal, Box<Stack<'exp, Ann>>),
    If {
        thn: &'exp Exp<Ann>,
        els: &'exp Exp<Ann>,
        env: List<(String, SnakeVal)>,
        stk: Box<Stack<'exp, Ann>>,
    },
    /// Binding `var`; `bindings` are those after it, the last one first.
    Let {
        var: &'exp String,
        env: List<(String, SnakeVal)>,
        bindings: Vec<&'exp (String, Exp<Ann>)>,
        body: &'exp Exp<Ann>,
        stk: Box<Stack<'exp, Ann>>,
    },
    /// Evaluating the arguments of a call; `remaining_args` are those after
    /// the current one, the last one first.
    Call {
        fun: &'exp String,
        evaled_args: Vec<SnakeVal>,
        env: List<(String, SnakeVal)>,
        remaining_args: Vec<&'exp Exp<Ann>>,
        stk: Box<Stack<'exp, Ann>>,
    },
}

/// The machine: either going down into an expression, or returning a
/// value to the stack.
pub enum Machine<'exp, Ann> {
    Descending { e: &'exp Exp<Ann>, stk: Stack<'exp, Ann>, env: List<(String, SnakeVal)> },
    Returning { v: SnakeVal, stk: Stack<'exp, Ann> },
}

/// The outcome of one step: the next state, the next state after printing
/// a value, or the final value.
pub enum Step<'exp, Ann> {
    Next(Machine<'exp, Ann>),
    Print(SnakeVal, Machine<'exp, Ann>),
    Done(SnakeVal),
}

/// The functions of a program by name: parameters and body.
pub type Funs<'exp, Ann> = VecMap<String, (&'exp Vec<String>, &'exp Exp<Ann>)>;

/// The machine that starts evaluating `e` with nothing in scope.
pub fn start<'exp, Ann>(e: &'exp Exp<Ann>) -> (m: Machine<'exp, Ann>)
    ensures
        m matches Machine::Descending { e: e2, stk, env } && *e2 == *e && stk is Done && env.as_seq().len() == 0,
{
    Machine::Descending { e, stk: Stack::Done, env: List::empty() }
}

/// The functions by name, a later declaration of a name replacing an
/// earlier one.
pub open spec fn decls_map<'exp, Ann>(decls: Seq<FunDecl<Exp<Ann>, Ann>>) -> Map<Seq<char>, (Seq<String>, Exp<Ann>)>
    decreases decls.len(),
{
    if decls.len() == 0 {
        Map::empty()
    } else {
        decls_map(decls.drop_last()).insert(decls.last().name@, (decls.last().parameters@, decls.last().body))
    }
}

/// The view of a function table: the parameters and the body of each.
pub open spec fn funs_view<'exp, Ann>(m: Map<Seq<char>, (&'exp Vec<String>, &'exp Exp<Ann>)>) -> Map<Seq<char>, (Seq<String>, Exp<Ann>)> {
    Map::new(|k: Seq<char>| m.contains_key(k), |k: Seq<char>| (m[k].0@, *m[k].1))
}

pub fn decls_to_hash<'exp, Ann>(decls: &'exp [FunDecl<Exp<Ann>, Ann>]) -> (h: Funs<'exp, Ann>)
    ensures
        funs_view(h@) == decls_map(decls@),
{
    let mut h: Funs<'exp, Ann> = VecMap::new();
    let mut i: usize = 0;
    proof { assert(funs_view(h@) =~= decls_map(decls@.subrange(0, 0))); }
    while i < decls.len()
        invariant
            i <= decls@.len(),
            funs_view(h@) == decls_map(decls@.subrange(0, i as int)),
        decreases decls@.len() - i,
    {
        let d = &decls[i];
        let ghost before = h@;
        h.insert(d.name.clone(), (&d.parameters, &d.body));
        proof {
            assert(decls@.subrange(0, i + 1).drop_last() =~= decls@.subrange(0, i as int));
            assert(funs_view(h@) =~= decls_map(decls@.subrange(0, i + 1)));
        }
        i = i + 1;
    }
    proof { assert(decls@.subrange(0, decls@.len() as int) =~= decls@); }
    h
}

/// The bindings of a call: parameter `i` bound to argument `i`, the last
/// parameter nearest.
pub open spec fn call_env(params: Seq<String>, args: Seq<SnakeVal>) -> Seq<(String, SnakeVal)>
    decreases params.len(),
{
    if params.len() == 0 || args.len() == 0 {
        Seq::empty()
    } else {
        seq![(params.last(), args.last())] + call_env(params.drop_last(), args.drop_last())
    }
}

/// `m` starts the body of `fun` with `args` bound to its parameters.
pub open spec fn called<'exp, Ann>(fun: Seq<char>, args: Seq<SnakeVal>, decls: Map<Seq<char>, (Seq<String>, Exp<Ann>)>,
    stk: Stack<'exp, Ann>, m: Machine<'exp, Ann>) -> bool {
    &&& decls.contains_key(fun)
    &&& m matches Machine::Descending { e, stk: s, env }
    &&& *e == decls[fun].1
    &&& s == stk
    &&& env.as_seq() == call_env(decls[fun].0, args)
}

/// `fun` is a function of `decls` that takes `n` arguments.
pub open spec fn callable<Ann>(decls: Map<Seq<char>, (Seq<String>, Exp<Ann>)>, fun: Seq<char>, n: int) -> bool {
    decls.contains_key(fun) && decls[fun].0.len() == n
}

fn call<'exp, Ann>(fun: &'exp String, args: Vec<SnakeVal>, decls: &Funs<'exp, Ann>, stk: Stack<'exp, Ann>) -> (m: Machine<'exp, Ann>)
    requires
        callable(funs_view(decls@), fun@, args@.len() as int),
    ensures
        called(fun@, args@, funs_view(decls@), stk, m),
{
    let (p_names, body) = match decls.get(fun) {
        Some(x) => *x,
        None => {
            proof { assert(false); }
            return Machine::Returning { v: SnakeVal::Num(0), stk };
        },
    };
    let n = args.len();
    let mut env: List<(String, SnakeVal)> = List::empty();
    let mut i: usize = 0;
    while i < n
        invariant
            i <= n,
            n == args@.len(),
            n == p_names@.len(),
            env.as_seq() == call_env(p_names@.subrange(0, i as int), args@.subrange(0, i as int)),
        decreases n - i,
    {
        let ghost before = env.as_seq();
        env = env.cons((p_names[i].clone(), args[i]));
        proof {
            assert(p_names@.subrange(0, i + 1).drop_last() =~= p_names@.subrange(0, i as int));
            assert(args@.subrange(0, i + 1).drop_last() =~= args@.subrange(0, i as int));
        }
        i = i + 1;
    }
    proof {
        assert(p_names@.subrange(0, n as int) =~= p_names@);
        assert(args@.subrange(0, n as int) =~= args@);
    }
    Machine::Descending { e: body, env, stk }
}

/// What the next step needs: a variable about to be read is bound, a
/// function about to be called exists and takes as many arguments as it
/// is given.
pub open spec fn can_step<'exp, Ann>(m: Machine<'exp, Ann>, decls: Map<Seq<char>, (Seq<String>, Exp<Ann>)>) -> bool {
    match m {
        Machine::Descending { e, env, .. } => match *e {
            Exp::Var(x, _) => assoc(env.as_seq(), x@) is Some,
            Exp::Call(fun, args, _) => args@.len() == 0 ==> callable(decls, fun@, 0),
            _ => true,
        },
        Machine::Returning { stk, .. } => match stk {
            Stack::Call { fun, evaled_args, remaining_args, .. } =>
                remaining_args@.len() == 0 ==> evaled_args@.len() < usize::MAX && callable(decls, fun@, evaled_args@.len() + 1int),
            _ => true,
        },
    }
}

/// `rb` holds the bindings of `bs` from `k` on, the last one first.
pub open spec fn pending_binds<'exp, Ann>(rb: Seq<&'exp (String, Exp<Ann>)>, bs: Seq<(String, Exp<Ann>)>, k: int) -> bool {
    &&& rb.len() == bs.len() - k
    &&& forall|i: int| 0 <= i < rb.len() ==> *rb[i] == #[trigger] bs[bs.len() - 1 - i]
}

/// `ra` holds the arguments of `es` from `k` on, the last one first.
pub open spec fn pending_args<'exp, Ann>(ra: Seq<&'exp Exp<Ann>>, es: Seq<Exp<Ann>>, k: int) -> bool {
    &&& ra.len() == es.len() - k
    &&& forall|i: int| 0 <= i < ra.len() ==> *ra[i] == #[trigger] es[es.len() - 1 - i]
}

/// The step the machine takes from `m`: going down an expression pushes
/// what remains to do and starts on its first part; returning a value pops
/// the stack and acts on it.
pub open spec fn step_rel<'exp, Ann>(m: Machine<'exp, Ann>, decls: Map<Seq<char>, (Seq<String>, Exp<Ann>)>,
    r: Result<Step<'exp, Ann>, InterpErr>) -> bool {
    match m {
        Machine::Descending { e, stk, env } => match *e {
            Exp::Num(n, _) => r == Ok::<Step<'exp, Ann>, InterpErr>(Step::Next(Machine::Returning { v: SnakeVal::Num(n), stk })),
            Exp::Bool(b, _) => r == Ok::<Step<'exp, Ann>, InterpErr>(Step::Next(Machine::Returning { v: SnakeVal::Bool(b), stk })),
            Exp::Var(x, _) => r == Ok::<Step<'exp, Ann>, InterpErr>(Step::Next(Machine::Returning { v: assoc(env.as_seq(), x@)->Some_0, stk })),
            Exp::Prim1(op, e1, _) => {
                &&& r matches Ok(Step::Next(Machine::Descending { e: e2, stk: s2, env: env2 }))
                &&& *e2 == *e1 && s2 == Stack::Prim1(op, Box::new(stk)) && env2 == env
            },
            Exp::Prim2(op, e1, e2, _) => {
                &&& r matches Ok(Step::Next(Machine::Descending { e: d, stk: Stack::Prim2L(op2, c, s2), env: env2 }))
                &&& *d == *e1 && op2 == op && *c.exp == *e2 && c.env == env && *s2 == stk && env2 == env
            },
            Exp::Let { bindings, body, .. } => if bindings@.len() == 0 {
                &&& r matches Ok(Step::Next(Machine::Descending { e: d, stk: s2, env: env2 }))
                &&& *d == *body && s2 == stk && env2 == env
            } else {
                &&& r matches Ok(Step::Next(Machine::Descending { e: d, stk: Stack::Let { var, env: env3, bindings: rb, body: b2, stk: s2 }, env: env2 }))
                &&& *d == bindings@[0].1 && *var == bindings@[0].0 && env3 == env && env2 == env
                &&& pending_binds(rb@, bindings@, 1) && *b2 == *body && *s2 == stk
            },
            Exp::If { cond, thn, els, .. } => {
                &&& r matches Ok(Step::Next(Machine::Descending { e: d, stk: Stack::If { thn: t2, els: f2, env: env3, stk: s2 }, env: env2 }))
                &&& *d == *cond && *t2 == *thn && *f2 == *els && env3 == env && *s2 == stk && env2 == env
            },
            Exp::Call(fun, args, _) => if args@.len() == 0 {
                r matches Ok(Step::Next(m2)) && called(fun@, Seq::empty(), decls, stk, m2)
            } else {
                &&& r matches Ok(Step::Next(Machine::Descending { e: d, stk: Stack::Call { fun: f2, evaled_args: ea, env: env3, remaining_args: ra, stk: s2 }, env: env2 }))
                &&& *d == args@[0] && *f2 == fun && ea@.len() == 0 && env3 == env && pending_args(ra@, args@, 1)
                &&& *s2 == stk && env2 == env
            },
        },
        Machine::Returning { v, stk } => match stk {
            Stack::Done => r == Ok::<Step<'exp, Ann>, InterpErr>(Step::Done(v)),
            Stack::Prim1(op, s) => match prim1_spec(op, v) {
                Ok(v2) => if op == Prim1::Print || op == Prim1::PrintStack {
                    r == Ok::<Step<'exp, Ann>, InterpErr>(Step::Print(v2, Machine::Returning { v: v2, stk: *s }))
                } else {
                    r == Ok::<Step<'exp, Ann>, InterpErr>(Step::Next(Machine::Returning { v: v2, stk: *s }))
                },
                Err(err) => rv(r) == Err::<Step<'exp, Ann>, ErrV>(err),
            },
            Stack::Prim2L(op, c, s) =>
                r == Ok::<Step<'exp, Ann>, InterpErr>(Step::Next(Machine::Descending { e: c.exp, env: c.env, stk: Stack::Prim2R(op, v, s) })),
            Stack::Prim2R(op, vl, s) => match prim2_spec(op, vl, v) {
                Ok(v2) => r == Ok::<Step<'exp, Ann>, InterpErr>(Step::Next(Machine::Returning { v: v2, stk: *s })),
                Err(err) => rv(r) == Err::<Step<'exp, Ann>, ErrV>(err),
            },
            Stack::Let { var, env, bindings, body, stk: s } => {
                let env_v = seq![(*var, v)] + env.as_seq();
                if bindings@.len() == 0 {
                    &&& r matches Ok(Step::Next(Machine::Descending { e: d, stk: s2, env: env2 }))
                    &&& *d == *body && s2 == *s && env2.as_seq() == env_v
                } else {
                    let nb = *bindings@.last();
                    &&& r matches Ok(Step::Next(Machine::Descending { e: d, stk: Stack::Let { var: var2, env: env3, bindings: rb, body: b2, stk: s2 }, env: env2 }))
                    &&& *d == nb.1 && *var2 == nb.0 && env2.as_seq() == env_v && env3 == env2
                    &&& rb@ == bindings@.drop_last() && *b2 == *body && s2 == s
                }
            },
            Stack::If { thn, els, env, stk: s } => match as_bool(v, "if"@, "if"@) {
                Ok(b) => {
                    &&& r matches Ok(Step::Next(Machine::Descending { e: d, stk: s2, env: env2 }))
                    &&& *d == (if b { *thn } else { *els }) && env2 == env && s2 == *s
                },
                Err(err) => rv(r) == Err::<Step<'exp, Ann>, ErrV>(err),
            },
            Stack::Call { fun, evaled_args, env, remaining_args, stk: s } => {
                let args = evaled_args@.push(v);
                if remaining_args@.len() == 0 {
                    r matches Ok(Step::Next(m2)) && called(fun@, args, decls, *s, m2)
                } else {
                    &&& r matches Ok(Step::Next(Machine::Descending { e: d, stk: Stack::Call { fun: f2, evaled_args: ea, env: env3, remaining_args: ra, stk: s2 }, env: env2 }))
                    &&& *d == *remaining_args@.last() && *f2 == *fun && ea@ == args && env3 == env && env2 == env
                    &&& ra@ == remaining_args@.drop_last() && s2 == s
                }
            },
        },
    }
}

/// The decisions of the machine: a condition that comes back true goes on
/// with the `then` branch in the condition's variables, false with the
/// `else` branch, and anything else is an error; the two values of a
/// binary primitive are taken left first (a comparison of numbers compares
/// the left one with the right one); a variable reads its nearest binding;
/// a `let` evaluates its first binding first.
pub proof fn lemma_step_decisions<'exp, Ann>(m: Machine<'exp, Ann>, d: Map<Seq<char>, (Seq<String>, Exp<Ann>)>,
    r: Result<Step<'exp, Ann>, InterpErr>)
    requires
        step_rel(m, d, r),
    ensures
        m matches Machine::Returning { v: SnakeVal::Bool(true), stk: Stack::If { thn, env, stk: s, .. } }
            ==> r == Ok::<Step<'exp, Ann>, InterpErr>(Step::Next(Machine::Descending { e: thn, stk: *s, env })),
        m matches Machine::Returning { v: SnakeVal::Bool(false), stk: Stack::If { els, env, stk: s, .. } }
            ==> r == Ok::<Step<'exp, Ann>, InterpErr>(Step::Next(Machine::Descending { e: els, stk: *s, env })),
        m matches Machine::Returning { v: SnakeVal::Num(_), stk: Stack::If { .. } } ==> rv(r) matches Err(ErrV::ExpectedBool(_, _, _)),
        m matches Machine::Returning { v: SnakeVal::Num(b), stk: Stack::Prim2R(Prim2::Lt, SnakeVal::Num(a), s) }
            ==> r == Ok::<Step<'exp, Ann>, InterpErr>(Step::Next(Machine::Returning { v: SnakeVal::Bool(a < b), stk: *s })),
        m matches Machine::Returning { v: SnakeVal::Num(b), stk: Stack::Prim2R(Prim2::Sub, SnakeVal::Num(a), s) }
            ==> (min_int() <= a - b <= max_int()
                ==> r == Ok::<Step<'exp, Ann>, InterpErr>(Step::Next(Machine::Returning { v: SnakeVal::Num((a - b) as i64), stk: *s }))),
        m matches Machine::Returning { v, stk: Stack::Prim2L(op, c, s) }
            ==> r == Ok::<Step<'exp, Ann>, InterpErr>(Step::Next(Machine::Descending { e: c.exp, env: c.env, stk: Stack::Prim2R(op, v, s) })),
        m matches Machine::Descending { e, env, .. } ==> (*e matches Exp::Var(x, _) ==> (env.as_seq().len() > 0 && env.as_seq()[0].0@ == x@
            ==> (r matches Ok(Step::Next(Machine::Returning { v, .. })) && v == env.as_seq()[0].1))),
        m matches Machine::Descending { e, .. } ==> (*e matches Exp::Let { bindings, .. } ==> (bindings@.len() > 0
            ==> (r matches Ok(Step::Next(Machine::Descending { e: d2, .. })) && *d2 == bindings@[0].1))),
{
    match m {
        Machine::Returning { v, stk } => match stk {
            Stack::Prim2R(op, vl, s) => {
                if let (SnakeVal::Num(a), SnakeVal::Num(b)) = (vl, v) {
                    lemma_prim2_values(a, b, true, true, v);
                }
            },
            _ => {},
        },
        _ => {},
    }
}

/// One step of the machine.
pub fn step<'exp, Ann>(m: Machine<'exp, Ann>, decls: &Funs<'exp, Ann>) -> (r: Result<Step<'exp, Ann>, InterpErr>)
    requires
        can_step(m, funs_view(decls@)),
    ensures
        step_rel(m, funs_view(decls@), r),
{
    match m {
        Machine::Descending { e, stk, env } => match e {
            Exp::Num(n, _) => Ok(Step::Next(Machine::Returning { v: SnakeVal::Num(*n), stk })),
            Exp::Bool(b, _) => Ok(Step::Next(Machine::Returning { v: SnakeVal::Bool(*b), stk })),
            Exp::Var(x, _) => match env.lookup(x.clone()) {
                Some(v) => Ok(Step::Next(Machine::Returning { v, stk })),
                None => {
                    proof { assert(false); }
                    Ok(Step::Done(SnakeVal::Num(0)))
                },
            },
            Exp::Prim1(op, e1, _) => Ok(Step::Next(Machine::Descending { e: &**e1, stk: Stack::Prim1(*op, Box::new(stk)), env })),
            Exp::Prim2(op, e1, e2, _) => {
                let c = Closure { exp: &**e2, env: env.share() };
                Ok(Step::Next(Machine::Descending { e: &**e1, stk: Stack::Prim2L(*op, c, Box::new(stk)), env }))
            },
            Exp::Let { bindings, body, .. } => {
                if bindings.len() == 0 {
                    Ok(Step::Next(Machine::Descending { e: &**body, stk, env }))
                } else {
                    let mut rb: Vec<&'exp (String, Exp<Ann>)> = Vec::new();
                    let mut k: usize = bindings.len();
                    while k > 1
                        invariant
                            1 <= k <= bindings@.len(),
                            pending_binds(rb@, bindings@, k as int),
                        decreases k,
                    {
                        k = k - 1;
                        rb.push(&bindings[k]);
                        proof {
                            assert forall|i: int| 0 <= i < rb@.len() implies *rb@[i] == #[trigger] bindings@[bindings@.len() - 1 - i] by {
                                if i == rb@.len() - 1 {
                                    assert(bindings@.len() - 1 - i == k);
                                }
                            }
                        }
                    }
                    let first = &bindings[0];
                    let frame = Stack::Let { var: &first.0, env: env.share(), bindings: rb, body: &**body, stk: Box::new(stk) };
                    Ok(Step::Next(Machine::Descending { e: &first.1, stk: frame, env }))
                }
            },
            Exp::If { cond, thn, els, .. } => {
                let frame = Stack::If { thn: &**thn, els: &**els, env: env.share(), stk: Box::new(stk) };
                Ok(Step::Next(Machine::Descending { e: &**cond, stk: frame, env }))
            },
            Exp::Call(fun, args, _) => {
                if args.len() == 0 {
                    Ok(Step::Next(call(fun, Vec::new(), decls, stk)))
                } else {
                    let mut ra: Vec<&'exp Exp<Ann>> = Vec::new();
                    let mut k: usize = args.len();
                    while k > 1
                        invariant
                            1 <= k <= args@.len(),
                            pending_args(ra@, args@, k as int),
                        decreases k,
                    {
                        k = k - 1;
                        ra.push(&args[k]);
                        proof {
                            assert forall|i: int| 0 <= i < ra@.len() implies *ra@[i] == #[trigger] args@[args@.len() - 1 - i] by {
                                if i == ra@.len() - 1 {
                                    assert(args@.len() - 1 - i == k);
                                }
                            }
                        }
                    }
                    let frame = Stack::Call { fun, evaled_args: Vec::new(), env: env.share(), remaining_args: ra, stk: Box::new(stk) };
                    Ok(Step::Next(Machine::Descending { e: &args[0], stk: frame, env }))
                }
            },
        },
        Machine::Returning { v, stk } => match stk {
            Stack::Done => Ok(Step::Done(v)),
            Stack::Prim1(op, s) => match interpret_prim1(&op, v) {
                Ok(v2) => match op {
                    Prim1::Print | Prim1::PrintStack => Ok(Step::Print(v2, Machine::Returning { v: v2, stk: *s })),
                    _ => Ok(Step::Next(Machine::Returning { v: v2, stk: *s })),
                },
                Err(err) => Err(err),
            },
            Stack::Prim2L(op, c, s) => Ok(Step::Next(Machine::Descending { e: c.exp, env: c.env, stk: Stack::Prim2R(op, v, s) })),
            Stack::Prim2R(op, vl, s) => match interpret_prim2(&op, vl, v) {
                Ok(v2) => Ok(Step::Next(Machine::Returning { v: v2, stk: *s })),
                Err(err) => Err(err),
            },
            Stack::Let { var, env, bindings, body, stk: s } => {
                let mut bindings = bindings;
                let env2 = env.cons((var.clone(), v));
                match bindings.pop() {
                    None => Ok(Step::Next(Machine::Descending { e: body, env: env2, stk: *s })),
                    Some(b) => {
                        let frame = Stack::Let { var: &b.0, env: env2.share(), bindings, body, stk: s };
                        Ok(Step::Next(Machine::Descending { e: &b.1, stk: frame, env: env2 }))
                    },
                }
            },
            Stack::If { thn, els, env, stk: s } => match bool(v, "if", "if") {
                Ok(b) => {
                    let e = if b { thn } else { els };
                    Ok(Step::Next(Machine::Descending { e, env, stk: *s }))
                },
                Err(err) => Err(err),
            },
            Stack::Call { fun, evaled_args, env, remaining_args, stk: s } => {
                let mut evaled_args = evaled_args;
                let mut remaining_args = remaining_args;
                evaled_args.push(v);
                match remaining_args.pop() {
                    None => Ok(Step::Next(call(fun, evaled_args, decls, *s))),
                    Some(e) => {
                        let frame = Stack::Call { fun, evaled_args, env: env.share(), remaining_args, stk: s };
                        Ok(Step::Next(Machine::Descending { e, env, stk: frame }))
                    },
                }
            },
        },
    }
}

pub open spec fn unbound_var_text() -> Seq<char> {
    "Unbound variable in interpreter! You should catch this in the check function!"@
}

/// Why the machine cannot take its next step, if it cannot: a variable
/// that is not bound, a function that does not exist or that is given the
/// wrong number of arguments.
pub open spec fn blocked_text<Ann>(fun: Seq<char>, n: nat, decls: Map<Seq<char>, (Seq<String>, Exp<Ann>)>) -> Seq<char>
    recommends
        !callable(decls, fun, n as int),
{
    if !decls.contains_key(fun) {
        "unbound function in interpreter: "@ + fun
    } else {
        "function "@ + fun + " called with "@ + dec_text(n) + " inputs but expects "@ + dec_text(decls[fun].0.len())
    }
}

fn call_blocked<'exp, Ann>(fun: &String, n: usize, decls: &Funs<'exp, Ann>) -> (r: Option<String>)
    ensures
        r is None <==> callable(funs_view(decls@), fun@, n as int),
        r matches Some(t) ==> t@ == blocked_text(fun@, n as nat, funs_view(decls@)),
{
    match decls.get(fun) {
        None => {
            let mut t = String::from_str("unbound function in interpreter: ");
            t.append(fun.as_str());
            Some(t)
        },
        Some(x) => {
            let ps = x.0;
            if ps.len() == n {
                None
            } else {
                let mut t = String::from_str("function ");
                t.append(fun.as_str());
                t.append(" called with ");
                t.append(nat_to_string(n as u64).as_str());
                t.append(" inputs but expects ");
                t.append(nat_to_string(ps.len() as u64).as_str());
                Some(t)
            }
        },
    }
}

/// Why the machine cannot take its next step, if it cannot.
pub fn blocked<'exp, Ann>(m: &Machine<'exp, Ann>, decls: &Funs<'exp, Ann>) -> (r: Option<String>)
    ensures
        r is None <==> can_step(*m, funs_view(decls@)),
        r matches Some(t) ==> match *m {
            Machine::Descending { e, .. } => match *e {
                Exp::Call(fun, args, _) => t@ == blocked_text(fun@, 0, funs_view(decls@)),
                _ => t@ == unbound_var_text(),
            },
            Machine::Returning { stk, .. } => match stk {
                Stack::Call { fun, evaled_args, .. } =>
                    evaled_args@.len() < usize::MAX ==> t@ == blocked_text(fun@, evaled_args@.len() + 1, funs_view(decls@)),
                _ => false,
            },
        },
{
    match m {
        Machine::Descending { e, env, .. } => match *e {
            Exp::Var(x, _) => match env.lookup(x.clone()) {
                Some(_) => None,
                None => Some(String::from_str("Unbound variable in interpreter! You should catch this in the check function!")),
            },
            Exp::Call(fun, args, _) => {
                if args.len() == 0 {
                    call_blocked(fun, 0, decls)
                } else {
                    None
                }
            },
            _ => None,
        },
        Machine::Returning { stk, .. } => match stk {
            Stack::Call { fun, evaled_args, remaining_args, .. } => {
                if remaining_args.len() == 0 {
                    if evaled_args.len() < usize::MAX {
                        call_blocked(fun, evaled_args.len() + 1, decls)
                    } else {
                        Some(String::from_str("too many arguments"))
                    }
                } else {
                    None
                }
            },
            _ => None,
        },
    }
}

} // verus!
