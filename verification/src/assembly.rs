//! x86-64 assembly: registers, operands, instructions, and their textual
//! (NASM) rendering.
use vstd::prelude::*;
use crate::text::{dec_text, hex_padded, int_text, signed_text, int_to_string, signed_to_string, hex_padded_to_string};

verus! {

#[derive(Copy, Clone, Debug, PartialEq, Eq, Structural, Hash, PartialOrd, Ord)]
pub enum Reg {
    Rax,
    Rbx,
    Rdx,
    Rcx,
    Rsi,
    Rdi,
    Rsp,
    Rbp,
    R8,
    R9,
    R10,
    R11,
    R12,
    R13,
    R14,
    R15,
}

/// The registers handed out by the register allocator, caller-saved ones
/// first. `rax` (results), `rsp`/`rbp` (stack), `r13`-`r14` (scratch) and
/// `r15` (scratch for wide constants) are kept out.
pub fn general_purpose_registers() -> (rs: Vec<Reg>)
    ensures
        rs@ == general_purpose_regs(),
{
    vec![Reg::Rdx, Reg::Rcx, Reg::Rsi, Reg::Rdi, Reg::R8, Reg::R9, Reg::R10, Reg::R11, Reg::Rbx, Reg::R12]
}

pub open spec fn general_purpose_regs() -> Seq<Reg> {
    seq![Reg::Rdx, Reg::Rcx, Reg::Rsi, Reg::Rdi, Reg::R8, Reg::R9, Reg::R10, Reg::R11, Reg::Rbx, Reg::R12]
}

/// Whether a register is one of the callee-saved registers that the
/// allocator may hand out (`rbx`, `r12`).
pub open spec fn is_callee_saved(r: Reg) -> bool {
    r == Reg::Rbx || r == Reg::R12
}

pub fn callee_saved(r: Reg) -> (b: bool)
    ensures
        b == is_callee_saved(r),
{
    r == Reg::Rbx || r == Reg::R12
}

#[derive(Clone, Copy, Debug, PartialEq, Eq, Structural)]
pub struct MemRef {
    pub reg: Reg,
    pub offset: i32,
}

#[derive(Clone, Copy, Debug, PartialEq, Eq, Structural)]
pub enum Arg64 {
    Reg(Reg),
    Signed(i64),
    Unsigned(u64),
    Mem(MemRef),
}

#[derive(Clone, Copy, Debug, PartialEq, Eq, Structural)]
pub enum Arg32 {
    Reg(Reg),
    Signed(i32),
    Unsigned(u32),
    Mem(MemRef),
}

#[derive(Clone, Copy, Debug, PartialEq, Eq, Structural)]
pub enum Reg32 {
    Reg(Reg),
    Imm(i32),
}

#[derive(Clone, Copy, Debug, PartialEq, Eq, Structural)]
pub enum MovArgs {
    ToReg(Reg, Arg64),
    ToMem(MemRef, Reg32),
}

#[derive(Clone, Copy, Debug, PartialEq, Eq, Structural)]
pub enum BinArgs {
    ToReg(Reg, Arg32),
    ToMem(MemRef, Reg32),
}

#[derive(Clone, Copy, Debug, PartialEq, Eq, Structural)]
pub enum Loc {
    Reg(Reg),
    Mem(MemRef),
}

#[derive(Clone, Debug, PartialEq, Eq)]
pub enum Instr {
    Mov(MovArgs),
    Add(BinArgs),
    Sub(BinArgs),
    IMul(BinArgs),
    And(BinArgs),
    Or(BinArgs),
    Xor(BinArgs),
    Shr(BinArgs),
    Sar(BinArgs),
    Cmp(BinArgs),
    Test(BinArgs),
    Push(Arg32),
    Pop(Loc),
    Label(String),
    Call(String),
    Ret,
    Jmp(String),
    Je(String),
    Jne(String),
    Jl(String),
    Jle(String),
    Jg(String),
    Jge(String),
    /// jump if the most significant bit of the result is set
    Js(String),
    /// jump if the result was zero
    Jz(String),
    /// jump if the result was not zero
    Jnz(String),
    /// jump if the last arithmetic operation overflowed
    Jo(String),
    /// jump if the last arithmetic operation did not overflow
    Jno(String),
}

pub open spec fn reg_text(r: Reg) -> Seq<char> {
    match r {
        Reg::Rax => "rax"@,
        Reg::Rbx => "rbx"@,
        Reg::Rcx => "rcx"@,
        Reg::Rdx => "rdx"@,
        Reg::Rsi => "rsi"@,
        Reg::Rdi => "rdi"@,
        Reg::Rsp => "rsp"@,
        Reg::Rbp => "rbp"@,
        Reg::R8 => "r8"@,
        Reg::R9 => "r9"@,
        Reg::R10 => "r10"@,
        Reg::R11 => "r11"@,
        Reg::R12 => "r12"@,
        Reg::R13 => "r13"@,
        Reg::R14 => "r14"@,
        Reg::R15 => "r15"@,
    }
}

pub open spec fn mem_ref_text(m: MemRef) -> Seq<char> {
    if m.offset == 0 {
        "QWORD ["@ + reg_text(m.reg) + "]"@
    } else {
        "QWORD ["@ + reg_text(m.reg) + signed_text(m.offset as int) + "]"@
    }
}

pub open spec fn reg32_text(r: Reg32) -> Seq<char> {
    match r {
        Reg32::Reg(r) => reg_text(r),
        Reg32::Imm(i) => int_text(i as int),
    }
}

pub open spec fn arg32_text(a: Arg32) -> Seq<char> {
    match a {
        Arg32::Reg(r) => reg_text(r),
        Arg32::Signed(i) => int_text(i as int),
        Arg32::Unsigned(u) => "0x"@ + hex_padded(u as nat, 8),
        Arg32::Mem(m) => mem_ref_text(m),
    }
}

pub open spec fn arg64_text(a: Arg64) -> Seq<char> {
    match a {
        Arg64::Reg(r) => reg_text(r),
        Arg64::Signed(i) => int_text(i as int),
        Arg64::Unsigned(u) => "0x"@ + hex_padded(u as nat, 16),
        Arg64::Mem(m) => mem_ref_text(m),
    }
}

pub open spec fn mov_args_text(a: MovArgs) -> Seq<char> {
    match a {
        MovArgs::ToReg(r, arg) => reg_text(r) + ", "@ + arg64_text(arg),
        MovArgs::ToMem(m, arg) => mem_ref_text(m) + ", "@ + reg32_text(arg),
    }
}

pub open spec fn bin_args_text(a: BinArgs) -> Seq<char> {
    match a {
        BinArgs::ToReg(r, arg) => reg_text(r) + ", "@ + arg32_text(arg),
        BinArgs::ToMem(m, arg) => mem_ref_text(m) + ", "@ + reg32_text(arg),
    }
}

pub open spec fn loc_text(l: Loc) -> Seq<char> {
    match l {
        Loc::Reg(r) => reg_text(r),
        Loc::Mem(m) => mem_ref_text(m),
    }
}

/// The eight spaces that indent every instruction but a label.
pub open spec fn indent() -> Seq<char> {
    "        "@
}

pub open spec fn instr_text(i: Instr) -> Seq<char> {
    match i {
        Instr::Mov(a) => indent() + "mov "@ + mov_args_text(a),
        Instr::Add(a) => indent() + "add "@ + bin_args_text(a),
        Instr::Sub(a) => indent() + "sub "@ + bin_args_text(a),
        Instr::IMul(a) => indent() + "imul "@ + bin_args_text(a),
        Instr::And(a) => indent() + "and "@ + bin_args_text(a),
        Instr::Or(a) => indent() + "or "@ + bin_args_text(a),
        Instr::Xor(a) => indent() + "xor "@ + bin_args_text(a),
        Instr::Shr(a) => indent() + "shr "@ + bin_args_text(a),
        Instr::Sar(a) => indent() + "sar "@ + bin_args_text(a),
        Instr::Cmp(a) => indent() + "cmp "@ + bin_args_text(a),
        Instr::Test(a) => indent() + "test "@ + bin_args_text(a),
        Instr::Push(a) => indent() + "push "@ + arg32_text(a),
        Instr::Pop(l) => indent() + "pop "@ + loc_text(l),
        Instr::Label(l) => l@ + ":"@,
        Instr::Call(f) => indent() + "call "@ + f@,
        Instr::Ret => indent() + "ret"@,
        Instr::Jmp(l) => indent() + "jmp "@ + l@,
        Instr::Je(l) => indent() + "je "@ + l@,
        Instr::Jne(l) => indent() + "jne "@ + l@,
        Instr::Jl(l) => indent() + "jl "@ + l@,
        Instr::Jle(l) => indent() + "jle "@ + l@,
        Instr::Jg(l) => indent() + "jg "@ + l@,
        Instr::Jge(l) => indent() + "jge "@ + l@,
        Instr::Js(l) => indent() + "js "@ + l@,
        Instr::Jz(l) => indent() + "jz "@ + l@,
        Instr::Jnz(l) => indent() + "jnz "@ + l@,
        Instr::Jo(l) => indent() + "jo "@ + l@,
        Instr::Jno(l) => indent() + "jno "@ + l@,
    }
}

/// Each instruction on a line of its own, every line ended by a newline.
pub open spec fn instrs_text(is: Seq<Instr>) -> Seq<char>
    decreases is.len(),
{
    if is.len() == 0 {
        Seq::empty()
    } else {
        instrs_text(is.drop_last()) + instr_text(is.last()) + "\n"@
    }
}

pub fn reg_to_string(r: Reg) -> (s: String)
    ensures
        s@ == reg_text(r),
{
    match r {
        Reg::Rax => String::from_str("rax"),
        Reg::Rbx => String::from_str("rbx"),
        Reg::Rcx => String::from_str("rcx"),
        Reg::Rdx => String::from_str("rdx"),
        Reg::Rsi => String::from_str("rsi"),
        Reg::Rdi => String::from_str("rdi"),
        Reg::Rsp => String::from_str("rsp"),
        Reg::Rbp => String::from_str("rbp"),
        Reg::R8 => String::from_str("r8"),
        Reg::R9 => String::from_str("r9"),
        Reg::R10 => String::from_str("r10"),
        Reg::R11 => String::from_str("r11"),
        Reg::R12 => String::from_str("r12"),
        Reg::R13 => String::from_str("r13"),
        Reg::R14 => String::from_str("r14"),
        Reg::R15 => String::from_str("r15"),
    }
}

pub fn imm32_to_string(i: i32) -> (s: String)
    ensures
        s@ == int_text(i as int),
{
    int_to_string(i as i64)
}

/// `s` followed by `t`.
fn join(s: String, t: &str) -> (r: String)
    ensures
        r@ == s@ + t@,
{
    let mut s = s;
    s.append(t);
    s
}

pub fn mem_ref_to_string(m: MemRef) -> (s: String)
    ensures
        s@ == mem_ref_text(m),
{
    let s = join(String::from_str("QWORD ["), reg_to_string(m.reg).as_str());
    if m.offset == 0 {
        join(s, "]")
    } else {
        let s = join(s, signed_to_string(m.offset as i64).as_str());
        join(s, "]")
    }
}

pub fn reg32_to_string(r_or_i: Reg32) -> (s: String)
    ensures
        s@ == reg32_text(r_or_i),
{
    match r_or_i {
        Reg32::Reg(r) => reg_to_string(r),
        Reg32::Imm(i) => imm32_to_string(i),
    }
}

pub fn arg32_to_string(arg: Arg32) -> (s: String)
    ensures
        s@ == arg32_text(arg),
{
    match arg {
        Arg32::Reg(r) => reg_to_string(r),
        Arg32::Signed(i) => imm32_to_string(i),
        Arg32::Unsigned(u) => join(String::from_str("0x"), hex_padded_to_string(u as u64, 8).as_str()),
        Arg32::Mem(m) => mem_ref_to_string(m),
    }
}

pub fn arg64_to_string(arg: Arg64) -> (s: String)
    ensures
        s@ == arg64_text(arg),
{
    match arg {
        Arg64::Reg(r) => reg_to_string(r),
        Arg64::Signed(i) => int_to_string(i),
        Arg64::Unsigned(u) => join(String::from_str("0x"), hex_padded_to_string(u, 16).as_str()),
        Arg64::Mem(m) => mem_ref_to_string(m),
    }
}

pub fn mov_args_to_string(args: MovArgs) -> (s: String)
    ensures
        s@ == mov_args_text(args),
{
    match args {
        MovArgs::ToReg(r, arg) => {
            let s = join(reg_to_string(r), ", ");
            join(s, arg64_to_string(arg).as_str())
        },
        MovArgs::ToMem(mem, arg) => {
            let s = join(mem_ref_to_string(mem), ", ");
            join(s, reg32_to_string(arg).as_str())
        },
    }
}

pub fn bin_args_to_string(args: BinArgs) -> (s: String)
    ensures
        s@ == bin_args_text(args),
{
    match args {
        BinArgs::ToReg(r, arg) => {
            let s = join(reg_to_string(r), ", ");
            join(s, arg32_to_string(arg).as_str())
        },
        BinArgs::ToMem(mem, arg) => {
            let s = join(mem_ref_to_string(mem), ", ");
            join(s, reg32_to_string(arg).as_str())
        },
    }
}

pub fn loc_to_string(loc: Loc) -> (s: String)
    ensures
        s@ == loc_text(loc),
{
    match loc {
        Loc::Reg(r) => reg_to_string(r),
        Loc::Mem(m) => mem_ref_to_string(m),
    }
}

/// An indented instruction: the mnemonic (with its trailing space) and the
/// operand text.
fn indented(mnemonic: &str, operands: &str) -> (s: String)
    ensures
        s@ == indent() + mnemonic@ + operands@,
{
    let s = join(String::from_str("        "), mnemonic);
    join(s, operands)
}

pub fn instr_to_string(i: &Instr) -> (s: String)
    ensures
        s@ == instr_text(*i),
{
    match i {
        Instr::Mov(args) => indented("mov ", mov_args_to_string(*args).as_str()),
        Instr::Add(args) => indented("add ", bin_args_to_string(*args).as_str()),
        Instr::Sub(args) => indented("sub ", bin_args_to_string(*args).as_str()),
        Instr::IMul(args) => indented("imul ", bin_args_to_string(*args).as_str()),
        Instr::And(args) => indented("and ", bin_args_to_string(*args).as_str()),
        Instr::Or(args) => indented("or ", bin_args_to_string(*args).as_str()),
        Instr::Xor(args) => indented("xor ", bin_args_to_string(*args).as_str()),
        Instr::Shr(args) => indented("shr ", bin_args_to_string(*args).as_str()),
        Instr::Sar(args) => indented("sar ", bin_args_to_string(*args).as_str()),
        Instr::Cmp(args) => indented("cmp ", bin_args_to_string(*args).as_str()),
        Instr::Test(args) => indented("test ", bin_args_to_string(*args).as_str()),
        Instr::Push(args) => indented("push ", arg32_to_string(*args).as_str()),
        Instr::Pop(loc) => indented("pop ", loc_to_string(*loc).as_str()),
        Instr::Label(lab) => join(lab.clone(), ":"),
        Instr::Call(func) => indented("call ", func.as_str()),
        Instr::Ret => {
            proof {
                reveal_strlit("");
                assert(indent() + "ret"@ + ""@ =~= indent() + "ret"@);
            }
            indented("ret", "")
        },
        Instr::Jmp(lab) => indented("jmp ", lab.as_str()),
        Instr::Je(lab) => indented("je ", lab.as_str()),
        Instr::Jne(lab) => indented("jne ", lab.as_str()),
        Instr::Jl(lab) => indented("jl ", lab.as_str()),
        Instr::Jle(lab) => indented("jle ", lab.as_str()),
        Instr::Jg(lab) => indented("jg ", lab.as_str()),
        Instr::Jge(lab) => indented("jge ", lab.as_str()),
        Instr::Js(lab) => indented("js ", lab.as_str()),
        Instr::Jz(lab) => indented("jz ", lab.as_str()),
        Instr::Jnz(lab) => indented("jnz ", lab.as_str()),
        Instr::Jo(lab) => indented("jo ", lab.as_str()),
        Instr::Jno(lab) => indented("jno ", lab.as_str()),
    }
}

pub fn instrs_to_string(is: &[Instr]) -> (s: String)
    ensures
        s@ == instrs_text(is@),
{
    let mut buf = String::new();
    let mut k: usize = 0;
    while k < is.len()
        invariant
            k <= is@.len(),
            buf@ == instrs_text(is@.subrange(0, k as int)),
        decreases is@.len() - k,
    {
        let line = instr_to_string(&is[k]);
        buf.append(line.as_str());
        buf.append("\n");
        proof {
            assert(is@.subrange(0, k + 1).drop_last() =~= is@.subrange(0, k as int));
        }
        k = k + 1;
    }
    proof {
        assert(is@.subrange(0, is@.len() as int) =~= is@);
    }
    buf
}

} // verus!
