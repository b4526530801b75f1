//! Code generation: sequential expressions, with their variables placed in
//! registers, spill slots or argument slots, to x86-64 instructions.
use vstd::prelude::*;
use crate::assembly::{Arg32, Arg64, BinArgs, Instr, Loc, MemRef, MovArgs, Reg, Reg32, instr_text, indent, is_callee_saved, callee_saved};
use crate::compile::{VarLocation, get, fun_lookup};
use crate::syntax::{ImmExp, Prim1, Prim2, SeqExp, seq_anns, seq_same_shape, mapped_by};
use crate::vecmap::{VecMap, lemma_entries_size};
use crate::vecset::VecSet;
use crate::assembly::{general_purpose_regs, general_purpose_registers};
use crate::regalloc::{let_vars, conflict_pairs, graph_add, proper_coloring, conflicts, allocate_registers};
use crate::vars::{reads, anns_union, within, lemma_vars_size, lemma_conflict_endpoints, lemma_anns_within, lemma_same_shape_vars};
use crate::measure::{seq_size, bodies_size, lemma_same_shape_size, lemma_uniquified_size, lemma_anns_le_size,
    lemma_bodies_size_eq, lemma_bodies_anns_le, lemma_seq_prog_size, lemma_body_le_bodies};
use crate::syntax::{Exp, FunDecl, Prog, SurfProg, SeqProg, prog_same_shape, prog_anns, consecutive, sprog_same_shape,
    exp_anns, binds_anns, args_anns, funs_anns, fun_anns,
    sprog_anns, uniquified, same_views, paired, bodies_anns, tag_prog, tag_sprog, uniquify_names, add_tag_sprog};
use crate::sequentialize::{lets_nonempty, binds_nonempty, args_nonempty, sequentialized, seq_prog, lemma_same_shape_lets};
use crate::liveness::{live_annotated, liveness_p, imms_vars};
use crate::vecset::views;
use crate::compile::{CompileErr, ErrView, check_prog, check_prog_spec, result_view};
use crate::lexer::Span1;
use crate::assembly::instrs_text;
use crate::text::{dec_text, nat_to_string};
use crate::scoping::{scoped, lemma_scoped_same_shape, lemma_scoped_reads, lemma_lowered_scoped, stackless, lemma_stackless_same_shape};
use crate::runtime::{bool_tag, snake_tru, snake_fls, bool_mask, bool_word};

verus! {

/// The text of each instruction, one per line.
pub open spec fn lines(is: Seq<Instr>) -> Seq<Seq<char>> {
    is.map_values(|i: Instr| instr_text(i))
}

proof fn lemma_lines_concat(a: Seq<Instr>, b: Seq<Instr>)
    ensures
        lines(a + b) == lines(a) + lines(b),
{
    assert(lines(a + b) =~= lines(a) + lines(b));
}

proof fn lemma_lines_push(a: Seq<Instr>, i: Instr)
    ensures
        lines(a.push(i)) == lines(a).push(instr_text(i)),
{
    assert(lines(a.push(i)) =~= lines(a).push(instr_text(i)));
}

/// Appends `b` to `a`.
fn append_all(a: &mut Vec<Instr>, b: Vec<Instr>)
    ensures
        lines(final(a)@) == lines(old(a)@) + lines(b@),
        final(a)@ == old(a)@ + b@,
{
    let mut b = b;
    proof { lemma_lines_concat(a@, b@); }
    a.append(&mut b);
}

/// Appends one instruction.
fn push_instr(a: &mut Vec<Instr>, i: Instr)
    ensures
        lines(final(a)@) == lines(old(a)@).push(instr_text(i)),
{
    proof { lemma_lines_push(a@, i); }
    a.push(i);
}

pub open spec fn mov_line(r: Reg, a: Arg64) -> Seq<char> {
    instr_text(Instr::Mov(MovArgs::ToReg(r, a)))
}

pub open spec fn label_line(l: Seq<char>) -> Seq<char> {
    l + ":"@
}

/// A jump (or call) with its mnemonic (trailing space included).
pub open spec fn jump_line(mnemonic: Seq<char>, l: Seq<char>) -> Seq<char> {
    indent() + mnemonic + l
}

/// `prefix` followed by the decimal digits of `tag`.
pub open spec fn tag_label(prefix: Seq<char>, tag: u32) -> Seq<char> {
    prefix + dec_text(tag as nat)
}

/// The slot below `rbp` of the `n`-th spilled variable.
pub open spec fn spill_slot(n: i32) -> MemRef {
    MemRef { reg: Reg::Rbp, offset: ((n + 1) * (-8)) as i32 }
}

/// The slot above `rbp` of argument `k`.
pub open spec fn arg_slot(k: int) -> MemRef {
    MemRef { reg: Reg::Rbp, offset: ((k + 5) * 8) as i32 }
}

/// Placements small enough that slot offsets fit in 32 bits.
pub open spec fn small_env(args: Seq<(String, i32)>, env: Map<Seq<char>, VarLocation>) -> bool {
    &&& forall|i: int| 0 <= i < args.len() ==> 0 <= #[trigger] args[i].1 < 0x0800_0000
    &&& args.len() < 0x0800_0000
    &&& forall|x: Seq<char>| #[trigger] env.contains_key(x) ==> (env[x] matches VarLocation::Spill(n) ==> 0 <= n < 0x0800_0000)
}

/// Moves an immediate into `dest`: numbers shifted left by one, booleans
/// as their words, variables from their place (a local's first).
pub open spec fn imm_lines(i: ImmExp, args: Seq<(String, i32)>, env: Map<Seq<char>, VarLocation>, dest: Reg) -> Seq<Seq<char>> {
    match i {
        ImmExp::Num(n) => seq![mov_line(dest, Arg64::Signed(vstd::wrapping::i64_specs::wrapping_mul(n, 2)))],
        ImmExp::Bool(b) => seq![mov_line(dest, Arg64::Unsigned(if b { snake_tru() } else { snake_fls() }))],
        ImmExp::Var(v) => if env.contains_key(v@) {
            match env[v@] {
                VarLocation::Reg(r) => seq![mov_line(dest, Arg64::Reg(r))],
                VarLocation::Spill(n) => seq![mov_line(dest, Arg64::Mem(spill_slot(n)))],
            }
        } else {
            match fun_lookup(args, v@) {
                Some(k) => seq![mov_line(dest, Arg64::Mem(arg_slot(k as int)))],
                None => Seq::empty(),
            }
        },
    }
}

proof fn lemma_lookup_small(args: Seq<(String, i32)>, x: Seq<char>)
    requires
        forall|i: int| 0 <= i < args.len() ==> 0 <= #[trigger] args[i].1 < 0x0800_0000,
    ensures
        fun_lookup(args, x) matches Some(k) ==> 0 <= k < 0x0800_0000,
    decreases args.len(),
{
    if args.len() > 0 {
        assert(args.last() == args[args.len() - 1]);
        lemma_lookup_small(args.drop_last(), x);
    }
}

/// The variable `x` has a place: a local one, or an argument slot.
pub open spec fn placed(args: Seq<(String, i32)>, env: Map<Seq<char>, VarLocation>, x: Seq<char>) -> bool {
    env.contains_key(x) || fun_lookup(args, x) is Some
}

/// Every variable that `e` reads has a place.
pub open spec fn reads_placed<A>(e: SeqExp<A>, args: Seq<(String, i32)>, env: Map<Seq<char>, VarLocation>) -> bool {
    forall|x: Seq<char>| #[trigger] reads(e).contains(x) ==> placed(args, env, x)
}

/// An immediate variable has a place.
pub open spec fn imm_placed(i: ImmExp, args: Seq<(String, i32)>, env: Map<Seq<char>, VarLocation>) -> bool {
    i matches ImmExp::Var(v) ==> placed(args, env, v@)
}

/// What every variable of `e` having a place says of its parts.
proof fn lemma_reads_placed_parts<A>(e: SeqExp<A>, args: Seq<(String, i32)>, env: Map<Seq<char>, VarLocation>)
    requires
        reads_placed(e, args, env),
    ensures
        e matches SeqExp::Imm(i, _) ==> imm_placed(i, args, env),
        e matches SeqExp::Prim1(_, i, _) ==> imm_placed(i, args, env),
        e matches SeqExp::Prim2(_, i, j, _) ==> imm_placed(i, args, env) && imm_placed(j, args, env),
        e matches SeqExp::Let { bound_exp, body, .. } ==> reads_placed(*bound_exp, args, env) && reads_placed(*body, args, env),
        e matches SeqExp::If { cond, thn, els, .. } ==> imm_placed(cond, args, env) && reads_placed(*thn, args, env) && reads_placed(*els, args, env),
{
    match e {
        SeqExp::Imm(i, _) => { if let ImmExp::Var(v) = i { assert(reads(e).contains(v@)); } },
        SeqExp::Prim1(_, i, _) => { if let ImmExp::Var(v) = i { assert(reads(e).contains(v@)); } },
        SeqExp::Prim2(_, i, j, _) => {
            if let ImmExp::Var(v) = i { assert(reads(e).contains(v@)); }
            if let ImmExp::Var(v) = j { assert(reads(e).contains(v@)); }
        },
        SeqExp::Let { bound_exp, body, .. } => {
            assert forall|x: Seq<char>| #[trigger] reads(*bound_exp).contains(x) implies placed(args, env, x) by {
                assert(reads(e).contains(x));
            }
            assert forall|x: Seq<char>| #[trigger] reads(*body).contains(x) implies placed(args, env, x) by {
                assert(reads(e).contains(x));
            }
        },
        SeqExp::If { cond, thn, els, .. } => {
            if let ImmExp::Var(v) = cond { assert(reads(e).contains(v@)); }
            assert forall|x: Seq<char>| #[trigger] reads(*thn).contains(x) implies placed(args, env, x) by {
                assert(reads(e).contains(x));
            }
            assert forall|x: Seq<char>| #[trigger] reads(*els).contains(x) implies placed(args, env, x) by {
                assert(reads(e).contains(x));
            }
        },
        SeqExp::Call(..) => {},
    }
}

/// A variable given as an immediate is among the variables of the list.
proof fn lemma_imms_vars_has(is: Seq<ImmExp>, k: int)
    requires
        0 <= k < is.len(),
    ensures
        is[k] matches ImmExp::Var(v) ==> imms_vars(is).contains(v@),
    decreases is.len(),
{
    if k < is.len() - 1 {
        assert(is.drop_last()[k] == is[k]);
        lemma_imms_vars_has(is.drop_last(), k);
    }
}

fn compile_imm(imm: &ImmExp, env_arg: &Vec<(String, i32)>, env_lcl: &VecMap<String, VarLocation>, dest: Reg) -> (is: Vec<Instr>)
    requires
        small_env(env_arg@, env_lcl@),
        imm_placed(*imm, env_arg@, env_lcl@),
    ensures
        lines(is@) == imm_lines(*imm, env_arg@, env_lcl@, dest),
{
    let mut is: Vec<Instr> = Vec::new();
    match imm {
        ImmExp::Num(n) => {
            push_instr(&mut is, Instr::Mov(MovArgs::ToReg(dest, Arg64::Signed(n.wrapping_mul(2)))));
        },
        ImmExp::Bool(b) => {
            if *b {
                push_instr(&mut is, Instr::Mov(MovArgs::ToReg(dest, Arg64::Unsigned(0xFF_FF_FF_FF_FF_FF_FF_FF))));
            } else {
                push_instr(&mut is, Instr::Mov(MovArgs::ToReg(dest, Arg64::Unsigned(0x7F_FF_FF_FF_FF_FF_FF_FF))));
            }
        },
        ImmExp::Var(v) => {
            match env_lcl.get(v) {
                Some(vl) => match vl {
                    VarLocation::Reg(reg) => {
                        push_instr(&mut is, Instr::Mov(MovArgs::ToReg(dest, Arg64::Reg(*reg))));
                    },
                    VarLocation::Spill(n) => {
                        push_instr(&mut is, Instr::Mov(MovArgs::ToReg(dest, Arg64::Mem(MemRef { reg: Reg::Rbp, offset: (*n + 1) * (-8) }))));
                    },
                },
                None => {
                    proof { lemma_lookup_small(env_arg@, v@); }
                    match get(env_arg.as_slice(), v) {
                        Some(n) => {
                            push_instr(&mut is, Instr::Mov(MovArgs::ToReg(dest, Arg64::Mem(MemRef { reg: Reg::Rbp, offset: (n + 5) * 8 }))));
                        },
                        None => {
                            // excluded by the precondition
                        },
                    }
                },
            }
        },
    }
    is
}

pub open spec fn check_num_lines(dest: Reg, lab: Seq<char>) -> Seq<Seq<char>> {
    seq![instr_text(Instr::Test(BinArgs::ToReg(dest, Arg32::Unsigned(1)))), jump_line("jnz "@, lab)]
}

pub open spec fn check_bool_lines(dest: Reg, lab: Seq<char>) -> Seq<Seq<char>> {
    seq![instr_text(Instr::Test(BinArgs::ToReg(dest, Arg32::Unsigned(1)))), jump_line("jz "@, lab)]
}

pub open spec fn overflow_lines() -> Seq<Seq<char>> {
    seq![jump_line("jo "@, "ovfl_error"@)]
}

/// Jumps to `lab` unless `dest` holds a boolean.
fn check_isbool(dest: Reg, lab: &str) -> (is: Vec<Instr>)
    ensures
        lines(is@) == check_bool_lines(dest, lab@),
{
    let mut is = Vec::<Instr>::new();
    push_instr(&mut is, Instr::Test(BinArgs::ToReg(dest, Arg32::Unsigned(0x01))));
    push_instr(&mut is, Instr::Jz(String::from_str(lab)));
    is
}

/// Jumps to `lab` unless `dest` holds a number.
fn check_isnum(dest: Reg, lab: &str) -> (is: Vec<Instr>)
    ensures
        lines(is@) == check_num_lines(dest, lab@),
{
    let mut is = Vec::<Instr>::new();
    push_instr(&mut is, Instr::Test(BinArgs::ToReg(dest, Arg32::Unsigned(0x01))));
    push_instr(&mut is, Instr::Jnz(String::from_str(lab)));
    is
}

/// Jumps to the overflow handler when the last operation overflowed.
fn check_overflow() -> (is: Vec<Instr>)
    ensures
        lines(is@) == overflow_lines(),
{
    let mut is = Vec::<Instr>::new();
    push_instr(&mut is, Instr::Jo(String::from_str("ovfl_error")));
    is
}

/// The caller-saved registers that hold live values: those of the
/// variables' places (in the order of the entries, each once) that the
/// code has written and that the callee need not save.
pub open spec fn saved_regs(ents: Seq<(String, VarLocation)>, used: Set<Reg>) -> Seq<Reg>
    decreases ents.len(),
{
    if ents.len() == 0 {
        Seq::empty()
    } else {
        let acc = saved_regs(ents.drop_last(), used);
        match ents.last().1 {
            VarLocation::Reg(r) => if !is_callee_saved(r) && used.contains(r) && !acc.contains(r) {
                acc.push(r)
            } else {
                acc
            },
            _ => acc,
        }
    }
}

pub open spec fn push_lines(rs: Seq<Reg>) -> Seq<Seq<char>> {
    rs.map_values(|r: Reg| instr_text(Instr::Push(Arg32::Reg(r))))
        + if rs.len() % 2 == 1 { seq![instr_text(Instr::Push(Arg32::Signed(0)))] } else { Seq::empty() }
}

pub open spec fn pop_lines(rs: Seq<Reg>) -> Seq<Seq<char>> {
    (if rs.len() % 2 == 1 { seq![instr_text(Instr::Add(BinArgs::ToReg(Reg::Rsp, Arg32::Signed(8))))] } else { Seq::empty() })
        + rs.reverse().map_values(|r: Reg| instr_text(Instr::Pop(Loc::Reg(r))))
}

/// Saves and restores the caller-saved registers that hold live values,
/// keeping the stack 16-byte aligned.
fn compile_caller_saved(env_lcl: &VecMap<String, VarLocation>, used_regs: &Vec<Reg>) -> (r: (Vec<Instr>, Vec<Instr>))
    ensures
        lines(r.0@) == push_lines(saved_regs(env_lcl.entry_seq(), used_regs@.to_set())),
        lines(r.1@) == pop_lines(saved_regs(env_lcl.entry_seq(), used_regs@.to_set())),
{
    let ents = env_lcl.entries();
    let ghost used = used_regs@.to_set();
    let mut regs: Vec<Reg> = Vec::new();
    let mut i: usize = 0;
    while i < ents.len()
        invariant
            i <= ents@.len(),
            ents@ == env_lcl.entry_seq(),
            used == used_regs@.to_set(),
            regs@ == saved_regs(ents@.subrange(0, i as int), used),
        decreases ents@.len() - i,
    {
        proof { assert(ents@.subrange(0, i + 1).drop_last() =~= ents@.subrange(0, i as int)); }
        match ents[i].1 {
            VarLocation::Reg(r) => {
                if !callee_saved(r) && has_reg(used_regs, r) && !has_reg(&regs, r) {
                    regs.push(r);
                }
            },
            _ => {},
        }
        i = i + 1;
    }
    proof { assert(ents@.subrange(0, ents@.len() as int) =~= ents@); }
    let ghost rs = regs@;
    let regs_odd = regs.len() % 2 == 1;
    let mut is_push = Vec::<Instr>::new();
    let mut k: usize = 0;
    while k < regs.len()
        invariant
            k <= regs@.len(),
            regs@ == rs,
            lines(is_push@) == rs.subrange(0, k as int).map_values(|r: Reg| instr_text(Instr::Push(Arg32::Reg(r)))),
        decreases regs@.len() - k,
    {
        push_instr(&mut is_push, Instr::Push(Arg32::Reg(regs[k])));
        proof {
            assert(rs.subrange(0, k + 1).map_values(|r: Reg| instr_text(Instr::Push(Arg32::Reg(r))))
                =~= rs.subrange(0, k as int).map_values(|r: Reg| instr_text(Instr::Push(Arg32::Reg(r)))).push(instr_text(Instr::Push(Arg32::Reg(rs[k as int])))));
        }
        k = k + 1;
    }
    proof { assert(rs.subrange(0, rs.len() as int) =~= rs); }
    if regs_odd {
        push_instr(&mut is_push, Instr::Push(Arg32::Signed(0)));
    }
    proof {
        assert(lines(is_push@) =~= push_lines(rs));
    }
    let mut is_pop = Vec::<Instr>::new();
    if regs_odd {
        push_instr(&mut is_pop, Instr::Add(BinArgs::ToReg(Reg::Rsp, Arg32::Signed(8))));
    }
    let ghost pre = lines(is_pop@);
    let mut k = regs.len();
    while k > 0
        invariant
            k <= regs@.len(),
            regs@ == rs,
            lines(is_pop@) == pre + rs.subrange(k as int, rs.len() as int).reverse().map_values(|r: Reg| instr_text(Instr::Pop(Loc::Reg(r)))),
        decreases k,
    {
        push_instr(&mut is_pop, Instr::Pop(Loc::Reg(regs[k - 1])));
        proof {
            assert(rs.subrange(k - 1, rs.len() as int).reverse() =~= rs.subrange(k as int, rs.len() as int).reverse().push(rs[k - 1]));
            assert(rs.subrange(k - 1, rs.len() as int).reverse().map_values(|r: Reg| instr_text(Instr::Pop(Loc::Reg(r))))
                =~= rs.subrange(k as int, rs.len() as int).reverse().map_values(|r: Reg| instr_text(Instr::Pop(Loc::Reg(r)))).push(instr_text(Instr::Pop(Loc::Reg(rs[k - 1])))));
        }
        k = k - 1;
    }
    proof {
        assert(rs.subrange(0, rs.len() as int) =~= rs);
        assert(lines(is_pop@) =~= pop_lines(rs));
    }
    (is_push, is_pop)
}

/// Whether `r` is among `rs`.
fn has_reg(rs: &Vec<Reg>, r: Reg) -> (b: bool)
    ensures
        b == rs@.contains(r),
{
    let mut i: usize = 0;
    while i < rs.len()
        invariant
            i <= rs@.len(),
            forall|j: int| 0 <= j < i ==> rs@[j] != r,
        decreases rs@.len() - i,
    {
        if rs[i] == r {
            return true;
        }
        i = i + 1;
    }
    false
}

pub open spec fn callee_push_lines() -> Seq<Seq<char>> {
    seq![
        instr_text(Instr::Push(Arg32::Reg(Reg::Rbx))),
        instr_text(Instr::Push(Arg32::Reg(Reg::R12))),
        instr_text(Instr::Push(Arg32::Reg(Reg::Rbp))),
        instr_text(Instr::Push(Arg32::Reg(Reg::R15))),
    ]
}

pub open spec fn callee_pop_lines() -> Seq<Seq<char>> {
    seq![
        instr_text(Instr::Pop(Loc::Reg(Reg::R15))),
        instr_text(Instr::Pop(Loc::Reg(Reg::Rbp))),
        instr_text(Instr::Pop(Loc::Reg(Reg::R12))),
        instr_text(Instr::Pop(Loc::Reg(Reg::Rbx))),
    ]
}

/// Saves and restores the callee-saved registers that the code may use.
fn compile_callee_saved() -> (r: (Vec<Instr>, Vec<Instr>))
    ensures
        lines(r.0@) == callee_push_lines(),
        lines(r.1@) == callee_pop_lines(),
{
    let mut is_push = Vec::<Instr>::new();
    let mut is_pop = Vec::<Instr>::new();
    push_instr(&mut is_push, Instr::Push(Arg32::Reg(Reg::Rbx)));
    push_instr(&mut is_push, Instr::Push(Arg32::Reg(Reg::R12)));
    push_instr(&mut is_push, Instr::Push(Arg32::Reg(Reg::Rbp)));
    push_instr(&mut is_push, Instr::Push(Arg32::Reg(Reg::R15)));
    push_instr(&mut is_pop, Instr::Pop(Loc::Reg(Reg::R15)));
    push_instr(&mut is_pop, Instr::Pop(Loc::Reg(Reg::Rbp)));
    push_instr(&mut is_pop, Instr::Pop(Loc::Reg(Reg::R12)));
    push_instr(&mut is_pop, Instr::Pop(Loc::Reg(Reg::Rbx)));
    proof {
        assert(lines(is_push@) =~= callee_push_lines());
        assert(lines(is_pop@) =~= callee_pop_lines());
    }
    (is_push, is_pop)
}


/// `tag`-numbered labels of the generated code.
fn tag_label_string(prefix: &str, tag: u32) -> (s: String)
    ensures
        s@ == tag_label(prefix@, tag),
{
    let mut s = String::from_str(prefix);
    s.append(nat_to_string(tag as u64).as_str());
    s
}

/// Materialises a boolean in `dest`: true when the jump `jump` is taken.
pub open spec fn flag_lines(dest: Reg, mnemonic: Seq<char>, lab: Seq<char>) -> Seq<Seq<char>> {
    seq![
        mov_line(dest, Arg64::Unsigned(snake_tru())),
        jump_line(mnemonic, lab),
        mov_line(dest, Arg64::Unsigned(snake_fls())),
        label_line(lab),
    ]
}

pub open spec fn prim1_lines(op: Prim1, dest: Reg, tag: u32, saved: Seq<Reg>) -> Seq<Seq<char>> {
    match op {
        Prim1::Add1 => check_num_lines(dest, "arith_error"@)
            + seq![instr_text(Instr::Add(BinArgs::ToReg(dest, Arg32::Signed(2))))] + overflow_lines(),
        Prim1::Sub1 => check_num_lines(dest, "arith_error"@)
            + seq![instr_text(Instr::Sub(BinArgs::ToReg(dest, Arg32::Signed(2))))] + overflow_lines(),
        Prim1::Not => check_bool_lines(dest, "logic_error"@) + seq![
            mov_line(Reg::R15, Arg64::Unsigned(bool_mask())),
            instr_text(Instr::Xor(BinArgs::ToReg(dest, Arg32::Reg(Reg::R15)))),
        ],
        Prim1::Print => push_lines(saved) + seq![
            mov_line(Reg::Rdi, Arg64::Reg(dest)),
            jump_line("call "@, "print_snake_val"@),
        ] + pop_lines(saved),
        Prim1::IsBool => seq![
            mov_line(Reg::R15, Arg64::Unsigned(bool_tag())),
            instr_text(Instr::Test(BinArgs::ToReg(dest, Arg32::Reg(Reg::R15)))),
        ] + flag_lines(dest, "jnz "@, tag_label("isbool#"@, tag)),
        Prim1::IsNum => seq![
            mov_line(Reg::R15, Arg64::Unsigned(bool_tag())),
            instr_text(Instr::Test(BinArgs::ToReg(dest, Arg32::Reg(Reg::R15)))),
        ] + flag_lines(dest, "jz "@, tag_label("isnum#"@, tag)),
        Prim1::PrintStack => Seq::empty(),
    }
}

pub open spec fn cmp_lines(dest: Reg, mnemonic: Seq<char>, lab: Seq<char>) -> Seq<Seq<char>> {
    check_num_lines(dest, "cmp_error"@) + check_num_lines(Reg::R15, "cmp_error"@)
        + seq![instr_text(Instr::Cmp(BinArgs::ToReg(dest, Arg32::Reg(Reg::R15))))]
        + flag_lines(dest, mnemonic, lab)
}

pub open spec fn arith_lines(dest: Reg, op: Seq<Seq<char>>) -> Seq<Seq<char>> {
    check_num_lines(dest, "arith_error"@) + check_num_lines(Reg::R15, "arith_error"@) + op + overflow_lines()
}

pub open spec fn logic_lines(dest: Reg, op: Instr) -> Seq<Seq<char>> {
    check_bool_lines(dest, "logic_error"@) + check_bool_lines(Reg::R15, "logic_error"@) + seq![instr_text(op)]
}

pub open spec fn prim2_lines(op: Prim2, dest: Reg, tag: u32) -> Seq<Seq<char>> {
    match op {
        Prim2::Add => arith_lines(dest, seq![instr_text(Instr::Add(BinArgs::ToReg(dest, Arg32::Reg(Reg::R15))))]),
        Prim2::Sub => arith_lines(dest, seq![instr_text(Instr::Sub(BinArgs::ToReg(dest, Arg32::Reg(Reg::R15))))]),
        Prim2::Mul => arith_lines(dest, seq![
            instr_text(Instr::Sar(BinArgs::ToReg(dest, Arg32::Signed(1)))),
            instr_text(Instr::IMul(BinArgs::ToReg(dest, Arg32::Reg(Reg::R15)))),
        ]),
        Prim2::And => logic_lines(dest, Instr::And(BinArgs::ToReg(dest, Arg32::Reg(Reg::R15)))),
        Prim2::Or => logic_lines(dest, Instr::Or(BinArgs::ToReg(dest, Arg32::Reg(Reg::R15)))),
        Prim2::Lt => cmp_lines(dest, "jl "@, tag_label("lt#"@, tag)),
        Prim2::Gt => cmp_lines(dest, "jg "@, tag_label("gt#"@, tag)),
        Prim2::Le => cmp_lines(dest, "jle "@, tag_label("le#"@, tag)),
        Prim2::Ge => cmp_lines(dest, "jge "@, tag_label("ge#"@, tag)),
        Prim2::Eq => seq![instr_text(Instr::Cmp(BinArgs::ToReg(dest, Arg32::Reg(Reg::R15))))]
            + flag_lines(dest, "je "@, tag_label("eq#"@, tag)),
        Prim2::Neq => seq![instr_text(Instr::Cmp(BinArgs::ToReg(dest, Arg32::Reg(Reg::R15))))]
            + flag_lines(dest, "jne "@, tag_label("neq#"@, tag)),
    }
}


/// Whether the conditional jump `m` is taken after `cmp x, y`, for the
/// signed conditions of the x86 manual (less, less or equal, greater,
/// greater or equal, equal, not equal).
pub open spec fn signed_jump_taken(m: Seq<char>, x: int, y: int) -> bool {
    if m == "jl "@ {
        x < y
    } else if m == "jle "@ {
        x <= y
    } else if m == "jg "@ {
        x > y
    } else if m == "jge "@ {
        x >= y
    } else if m == "je "@ {
        x == y
    } else if m == "jne "@ {
        x != y
    } else {
        false
    }
}

/// The comparison operators of the language.
pub open spec fn is_comparison(op: Prim2) -> bool {
    op is Lt || op is Le || op is Gt || op is Ge || op is Eq || op is Neq
}

/// Compiled comparisons agree with the interpreter. The code of a
/// comparison (with its left operand in `dest`, its right one in `r15`)
/// compares `dest` with `r15`, sets `dest` to the true word, jumps past
/// the setting of the false word when its condition holds, and so ends
/// with the true word exactly when the interpreter's comparison of the two
/// numbers (held shifted left by one) is true.
pub proof fn lemma_compiled_comparison(op: Prim2, dest: Reg, tag: u32, n1: i64, n2: i64)
    requires
        is_comparison(op),
    ensures
        exists|m: Seq<char>, lab: Seq<char>| #![trigger jump_line(m, lab)] {
            &&& (prim2_lines(op, dest, tag) == check_num_lines(dest, "cmp_error"@) + check_num_lines(Reg::R15, "cmp_error"@)
                    + seq![instr_text(Instr::Cmp(BinArgs::ToReg(dest, Arg32::Reg(Reg::R15))))]
                    + seq![mov_line(dest, Arg64::Unsigned(snake_tru())), jump_line(m, lab), mov_line(dest, Arg64::Unsigned(snake_fls())), label_line(lab)]
                || prim2_lines(op, dest, tag) == seq![instr_text(Instr::Cmp(BinArgs::ToReg(dest, Arg32::Reg(Reg::R15))))]
                    + seq![mov_line(dest, Arg64::Unsigned(snake_tru())), jump_line(m, lab), mov_line(dest, Arg64::Unsigned(snake_fls())), label_line(lab)])
            &&& (signed_jump_taken(m, 2 * n1, 2 * n2)
                <==> crate::interp::prim2_spec(op, crate::interp::SnakeVal::Num(n1), crate::interp::SnakeVal::Num(n2))
                    == Ok::<crate::interp::SnakeVal, crate::interp::ErrV>(crate::interp::SnakeVal::Bool(true)))
        },
{
    let (m, lab) = match op {
        Prim2::Lt => ("jl "@, tag_label("lt#"@, tag)),
        Prim2::Le => ("jle "@, tag_label("le#"@, tag)),
        Prim2::Gt => ("jg "@, tag_label("gt#"@, tag)),
        Prim2::Ge => ("jge "@, tag_label("ge#"@, tag)),
        Prim2::Eq => ("je "@, tag_label("eq#"@, tag)),
        _ => ("jne "@, tag_label("neq#"@, tag)),
    };
    reveal_strlit("jl ");
    reveal_strlit("jle ");
    reveal_strlit("jg ");
    reveal_strlit("jge ");
    reveal_strlit("je ");
    reveal_strlit("jne ");
    assert(jump_line(m, lab) == jump_line(m, lab));
    let (x, y) = (2 * n1, 2 * n2);
    assert("jl "@.len() == 3 && "jg "@.len() == 3 && "je "@.len() == 3);
    assert("jle "@.len() == 4 && "jge "@.len() == 4 && "jne "@.len() == 4);
    assert("jl "@[1] == 'l' && "jg "@[1] == 'g' && "je "@[1] == 'e');
    assert("jle "@[1] == 'l' && "jge "@[1] == 'g' && "jne "@[1] == 'n');
    assert("jl "@ != "jg "@ && "jl "@ != "je "@ && "jg "@ != "je "@);
    assert("jle "@ != "jge "@ && "jle "@ != "jne "@ && "jge "@ != "jne "@);
    match op {
        Prim2::Lt => { assert(signed_jump_taken(m, x, y) == (x < y)); },
        Prim2::Le => { assert(signed_jump_taken(m, x, y) == (x <= y)); },
        Prim2::Gt => { assert(signed_jump_taken(m, x, y) == (x > y)); },
        Prim2::Ge => { assert(signed_jump_taken(m, x, y) == (x >= y)); },
        Prim2::Eq => { assert(signed_jump_taken(m, x, y) == (x == y)); },
        _ => { assert(signed_jump_taken(m, x, y) == (x != y)); },
    }
    if op is Eq || op is Neq {
        assert(prim2_lines(op, dest, tag) =~= seq![instr_text(Instr::Cmp(BinArgs::ToReg(dest, Arg32::Reg(Reg::R15))))]
            + seq![mov_line(dest, Arg64::Unsigned(snake_tru())), jump_line(m, lab), mov_line(dest, Arg64::Unsigned(snake_fls())), label_line(lab)]);
    } else {
        assert(prim2_lines(op, dest, tag) =~= check_num_lines(dest, "cmp_error"@) + check_num_lines(Reg::R15, "cmp_error"@)
            + seq![instr_text(Instr::Cmp(BinArgs::ToReg(dest, Arg32::Reg(Reg::R15))))]
            + seq![mov_line(dest, Arg64::Unsigned(snake_tru())), jump_line(m, lab), mov_line(dest, Arg64::Unsigned(snake_fls())), label_line(lab)]);
    }
}

/* What the generated instructions compute */

/// The source operand of an instruction when `r15` holds `s`.
pub open spec fn src_val(a: Arg32, s: int) -> int {
    match a {
        Arg32::Reg(r) => if r == Reg::R15 { s } else { 0 },
        Arg32::Signed(k) => k as int,
        _ => 0,
    }
}

/// The integer in `dest` after the arithmetic instruction `i` (as a
/// mathematical integer: the overflow check after the code catches what
/// leaves 64 bits), when `dest` held `d` and `r15` holds `s`. `sar` by one
/// halves, rounding down.
pub open spec fn arith_step(i: Instr, dest: Reg, d: int, s: int) -> int {
    match i {
        Instr::Add(BinArgs::ToReg(r, a)) => if r == dest { d + src_val(a, s) } else { d },
        Instr::Sub(BinArgs::ToReg(r, a)) => if r == dest { d - src_val(a, s) } else { d },
        Instr::IMul(BinArgs::ToReg(r, a)) => if r == dest { d * src_val(a, s) } else { d },
        Instr::Sar(BinArgs::ToReg(r, a)) => if r == dest && a == Arg32::Signed(1) { d / 2 } else { d },
        _ => d,
    }
}

/// The integer in `dest` after the instructions `is`.
pub open spec fn arith_run(is: Seq<Instr>, dest: Reg, d: int, s: int) -> int
    decreases is.len(),
{
    if is.len() == 0 { d } else { arith_run(is.drop_first(), dest, arith_step(is[0], dest, d, s), s) }
}

/// The words in `dest` and `r15` after the bitwise instruction `i`.
pub open spec fn bits_step(i: Instr, dest: Reg, st: (u64, u64)) -> (u64, u64) {
    match i {
        Instr::Mov(MovArgs::ToReg(r, Arg64::Unsigned(k))) => if r == Reg::R15 { (st.0, k) } else { st },
        Instr::And(BinArgs::ToReg(r, a)) => if r == dest && a == Arg32::Reg(Reg::R15) { (st.0 & st.1, st.1) } else { st },
        Instr::Or(BinArgs::ToReg(r, a)) => if r == dest && a == Arg32::Reg(Reg::R15) { (st.0 | st.1, st.1) } else { st },
        Instr::Xor(BinArgs::ToReg(r, a)) => if r == dest && a == Arg32::Reg(Reg::R15) { (st.0 ^ st.1, st.1) } else { st },
        _ => st,
    }
}

/// The words in `dest` and `r15` after the instructions `is`.
pub open spec fn bits_run(is: Seq<Instr>, dest: Reg, st: (u64, u64)) -> (u64, u64)
    decreases is.len(),
{
    if is.len() == 0 { st } else { bits_run(is.drop_first(), dest, bits_step(is[0], dest, st)) }
}

/// Whether the jump `m` is taken after a `test` whose bitwise and is `x`.
pub open spec fn test_jump_taken(m: Seq<char>, x: u64) -> bool {
    if m == "jz "@ { x == 0 } else if m == "jnz "@ { x != 0 } else { false }
}

proof fn lemma_test_mnemonics()
    ensures
        test_jump_taken("jz "@, 0),
        forall|x: u64| test_jump_taken("jz "@, x) == (x == 0),
        forall|x: u64| test_jump_taken("jnz "@, x) == (x != 0),
{
    reveal_strlit("jz ");
    reveal_strlit("jnz ");
    assert("jz "@.len() != "jnz "@.len());
}

/// The words of numbers have a clear low bit, those of booleans a set one;
/// the top bit tells the booleans apart.
proof fn lemma_word_bits(v: crate::interp::SnakeVal)
    requires
        crate::interp::in_range(v),
    ensures
        (crate::interp::encode(v) & 1u64 == 0u64) == (v is Num),
        v matches crate::interp::SnakeVal::Bool(b) ==> ((crate::interp::encode(v) & bool_mask() == 0u64) == !b),
{
    match v {
        crate::interp::SnakeVal::Num(n) => {
            let x = crate::interp::encode(v);
            assert(x % 2 == 0);
            assert(x & 1u64 == 0u64) by (bit_vector) requires x % 2 == 0;
        },
        crate::interp::SnakeVal::Bool(b) => {
            assert(0xFFFF_FFFF_FFFF_FFFFu64 & 1u64 == 1u64) by (bit_vector);
            assert(0x7FFF_FFFF_FFFF_FFFFu64 & 1u64 == 1u64) by (bit_vector);
            assert(0xFFFF_FFFF_FFFF_FFFFu64 & 0x8000_0000_0000_0000u64 != 0u64) by (bit_vector);
            assert(0x7FFF_FFFF_FFFF_FFFFu64 & 0x8000_0000_0000_0000u64 == 0u64) by (bit_vector);
        },
    }
}

/// Compiled arithmetic agrees with the interpreter: after the type checks,
/// the instructions that the code of `+`, `-` or `*` runs on the words of
/// two numbers (left operand in `dest`, right one in `r15`) leave in `dest`
/// the word of the interpreter's result; the overflow check follows.
pub proof fn lemma_compiled_arith(op: Prim2, dest: Reg, tag: u32, n1: i64, n2: i64)
    requires
        op is Add || op is Sub || op is Mul,
        dest != Reg::R15,
    ensures
        exists|ops: Seq<Instr>| #![trigger lines(ops)] {
            &&& prim2_lines(op, dest, tag) == check_num_lines(dest, "arith_error"@) + check_num_lines(Reg::R15, "arith_error"@)
                + lines(ops) + overflow_lines()
            &&& crate::interp::prim2_spec(op, crate::interp::SnakeVal::Num(n1), crate::interp::SnakeVal::Num(n2))
                matches Ok(crate::interp::SnakeVal::Num(v)) ==> arith_run(ops, dest, 2 * n1, 2 * n2) == 2 * v
        },
{
    crate::interp::lemma_prim2_values(n1, n2, true, true, crate::interp::SnakeVal::Num(0));
    reveal_with_fuel(arith_run, 3);
    let ops = match op {
        Prim2::Add => seq![Instr::Add(BinArgs::ToReg(dest, Arg32::Reg(Reg::R15)))],
        Prim2::Sub => seq![Instr::Sub(BinArgs::ToReg(dest, Arg32::Reg(Reg::R15)))],
        _ => seq![Instr::Sar(BinArgs::ToReg(dest, Arg32::Signed(1))), Instr::IMul(BinArgs::ToReg(dest, Arg32::Reg(Reg::R15)))],
    };
    assert(lines(ops) =~= ops.map_values(|i: Instr| instr_text(i)));
    if op is Mul {
        assert(lines(ops) =~= seq![instr_text(Instr::Sar(BinArgs::ToReg(dest, Arg32::Signed(1)))),
            instr_text(Instr::IMul(BinArgs::ToReg(dest, Arg32::Reg(Reg::R15))))]);
        assert((2 * n1) / 2 == n1);
        assert(ops.drop_first().drop_first() =~= Seq::<Instr>::empty());
        assert(arith_run(ops, dest, 2 * n1, 2 * n2) == n1 * (2 * n2));
        assert(n1 * (2 * n2) == 2 * (n1 * n2)) by (nonlinear_arith);
    } else {
        assert(ops.drop_first() =~= Seq::<Instr>::empty());
        assert(lines(ops) =~= seq![instr_text(ops[0])]);
    }
    assert(prim2_lines(op, dest, tag) =~= check_num_lines(dest, "arith_error"@) + check_num_lines(Reg::R15, "arith_error"@)
        + lines(ops) + overflow_lines());
}

/// Compiled connectives agree with the interpreter: after the type checks,
/// the instructions of `&&` or `||` turn the words of two booleans into the
/// word of the interpreter's result.
pub proof fn lemma_compiled_logic(op: Prim2, dest: Reg, tag: u32, b1: bool, b2: bool)
    requires
        op is And || op is Or,
        dest != Reg::R15,
    ensures
        exists|ops: Seq<Instr>| #![trigger lines(ops)] {
            &&& prim2_lines(op, dest, tag) == check_bool_lines(dest, "logic_error"@) + check_bool_lines(Reg::R15, "logic_error"@) + lines(ops)
            &&& crate::interp::prim2_spec(op, crate::interp::SnakeVal::Bool(b1), crate::interp::SnakeVal::Bool(b2))
                matches Ok(crate::interp::SnakeVal::Bool(b))
            &&& bits_run(ops, dest, (bool_word(b1), bool_word(b2))).0
                == bool_word(crate::interp::prim2_spec(op, crate::interp::SnakeVal::Bool(b1), crate::interp::SnakeVal::Bool(b2))->Ok_0->Bool_0)
        },
{
    crate::interp::lemma_prim2_values(0, 0, b1, b2, crate::interp::SnakeVal::Num(0));
    let ops = if op is And {
        seq![Instr::And(BinArgs::ToReg(dest, Arg32::Reg(Reg::R15)))]
    } else {
        seq![Instr::Or(BinArgs::ToReg(dest, Arg32::Reg(Reg::R15)))]
    };
    assert(ops.drop_first() =~= Seq::<Instr>::empty());
    assert(lines(ops) =~= seq![instr_text(ops[0])]);
    assert(prim2_lines(op, dest, tag) =~= check_bool_lines(dest, "logic_error"@) + check_bool_lines(Reg::R15, "logic_error"@) + lines(ops));
    reveal_with_fuel(bits_run, 2);
    assert(0xFFFF_FFFF_FFFF_FFFFu64 & 0xFFFF_FFFF_FFFF_FFFFu64 == 0xFFFF_FFFF_FFFF_FFFFu64) by (bit_vector);
    assert(0xFFFF_FFFF_FFFF_FFFFu64 & 0x7FFF_FFFF_FFFF_FFFFu64 == 0x7FFF_FFFF_FFFF_FFFFu64) by (bit_vector);
    assert(0x7FFF_FFFF_FFFF_FFFFu64 & 0xFFFF_FFFF_FFFF_FFFFu64 == 0x7FFF_FFFF_FFFF_FFFFu64) by (bit_vector);
    assert(0x7FFF_FFFF_FFFF_FFFFu64 & 0x7FFF_FFFF_FFFF_FFFFu64 == 0x7FFF_FFFF_FFFF_FFFFu64) by (bit_vector);
    assert(0xFFFF_FFFF_FFFF_FFFFu64 | 0xFFFF_FFFF_FFFF_FFFFu64 == 0xFFFF_FFFF_FFFF_FFFFu64) by (bit_vector);
    assert(0xFFFF_FFFF_FFFF_FFFFu64 | 0x7FFF_FFFF_FFFF_FFFFu64 == 0xFFFF_FFFF_FFFF_FFFFu64) by (bit_vector);
    assert(0x7FFF_FFFF_FFFF_FFFFu64 | 0xFFFF_FFFF_FFFF_FFFFu64 == 0xFFFF_FFFF_FFFF_FFFFu64) by (bit_vector);
    assert(0x7FFF_FFFF_FFFF_FFFFu64 | 0x7FFF_FFFF_FFFF_FFFFu64 == 0x7FFF_FFFF_FFFF_FFFFu64) by (bit_vector);
    assert(bits_run(ops, dest, (bool_word(b1), bool_word(b2))) == bits_step(ops[0], dest, (bool_word(b1), bool_word(b2))));
}

/// Compiled `add1` and `sub1` agree with the interpreter on the word of a
/// number (after the type check; the overflow check follows).
pub proof fn lemma_compiled_add1_sub1(op: Prim1, dest: Reg, tag: u32, saved: Seq<Reg>, n: i64)
    requires
        op is Add1 || op is Sub1,
    ensures
        exists|ops: Seq<Instr>| #![trigger lines(ops)] {
            &&& prim1_lines(op, dest, tag, saved) == check_num_lines(dest, "arith_error"@) + lines(ops) + overflow_lines()
            &&& crate::interp::prim1_spec(op, crate::interp::SnakeVal::Num(n)) matches Ok(crate::interp::SnakeVal::Num(v))
                ==> arith_run(ops, dest, 2 * n, 0) == 2 * v
        },
{
    crate::interp::lemma_prim1_values(n, true, crate::interp::SnakeVal::Num(0));
    reveal_with_fuel(arith_run, 2);
    let ops = if op is Add1 {
        seq![Instr::Add(BinArgs::ToReg(dest, Arg32::Signed(2)))]
    } else {
        seq![Instr::Sub(BinArgs::ToReg(dest, Arg32::Signed(2)))]
    };
    assert(ops.drop_first() =~= Seq::<Instr>::empty());
    assert(lines(ops) =~= seq![instr_text(ops[0])]);
    assert(prim1_lines(op, dest, tag, saved) =~= check_num_lines(dest, "arith_error"@) + lines(ops) + overflow_lines());
    assert(arith_run(ops, dest, 2 * n, 0) == arith_step(ops[0], dest, 2 * n, 0));
}

/// Compiled `!` turns the word of a boolean into the word of its negation
/// (after the type check), whatever `r15` held.
pub proof fn lemma_compiled_not(dest: Reg, tag: u32, saved: Seq<Reg>, b: bool, s: u64)
    requires
        dest != Reg::R15,
    ensures
        exists|ops: Seq<Instr>| #![trigger lines(ops)] {
            &&& prim1_lines(Prim1::Not, dest, tag, saved) == check_bool_lines(dest, "logic_error"@) + lines(ops)
            &&& bits_run(ops, dest, (bool_word(b), s)).0 == bool_word(!b)
        },
{
    let ops = seq![Instr::Mov(MovArgs::ToReg(Reg::R15, Arg64::Unsigned(bool_mask()))),
        Instr::Xor(BinArgs::ToReg(dest, Arg32::Reg(Reg::R15)))];
    assert(ops.drop_first().drop_first() =~= Seq::<Instr>::empty());
    assert(lines(ops) =~= seq![instr_text(ops[0]), instr_text(ops[1])]);
    assert(prim1_lines(Prim1::Not, dest, tag, saved) =~= check_bool_lines(dest, "logic_error"@) + lines(ops));
    reveal_with_fuel(bits_run, 3);
    assert(0xFFFF_FFFF_FFFF_FFFFu64 ^ 0x8000_0000_0000_0000u64 == 0x7FFF_FFFF_FFFF_FFFFu64) by (bit_vector);
    assert(0x7FFF_FFFF_FFFF_FFFFu64 ^ 0x8000_0000_0000_0000u64 == 0xFFFF_FFFF_FFFF_FFFFu64) by (bit_vector);
}

/// The kind tests of compiled code agree with the interpreter: `isbool`
/// and `isnum` test the word of a value against a mask and set the true
/// word exactly when the interpreter's test is true.
pub proof fn lemma_compiled_kind_tests(op: Prim1, dest: Reg, tag: u32, saved: Seq<Reg>, v: crate::interp::SnakeVal)
    requires
        op is IsBool || op is IsNum,
        crate::interp::in_range(v),
    ensures
        exists|k: u64, m: Seq<char>, lab: Seq<char>| #![trigger jump_line(m, lab), mov_line(Reg::R15, Arg64::Unsigned(k))] {
            &&& prim1_lines(op, dest, tag, saved) == seq![
                    mov_line(Reg::R15, Arg64::Unsigned(k)),
                    instr_text(Instr::Test(BinArgs::ToReg(dest, Arg32::Reg(Reg::R15)))),
                    mov_line(dest, Arg64::Unsigned(snake_tru())),
                    jump_line(m, lab),
                    mov_line(dest, Arg64::Unsigned(snake_fls())),
                    label_line(lab),
                ]
            &&& (test_jump_taken(m, crate::interp::encode(v) & k)
                <==> crate::interp::prim1_spec(op, v) == Ok::<crate::interp::SnakeVal, crate::interp::ErrV>(crate::interp::SnakeVal::Bool(true)))
        },
{
    lemma_test_mnemonics();
    lemma_word_bits(v);
    let k = bool_tag();
    let lab = if op is IsBool { tag_label("isbool#"@, tag) } else { tag_label("isnum#"@, tag) };
    let m = if op is IsBool { "jnz "@ } else { "jz "@ };
    assert(mov_line(Reg::R15, Arg64::Unsigned(k)) == mov_line(Reg::R15, Arg64::Unsigned(k)));
    assert(jump_line(m, lab) == jump_line(m, lab));
    assert(prim1_lines(op, dest, tag, saved) =~= seq![
        mov_line(Reg::R15, Arg64::Unsigned(k)),
        instr_text(Instr::Test(BinArgs::ToReg(dest, Arg32::Reg(Reg::R15)))),
        mov_line(dest, Arg64::Unsigned(snake_tru())),
        jump_line(m, lab),
        mov_line(dest, Arg64::Unsigned(snake_fls())),
        label_line(lab),
    ]);
}

/// The type checks of compiled code jump to their error exactly when the
/// value is not of the kind wanted: a number for arithmetic and
/// comparisons, a boolean for connectives and conditions.
pub proof fn lemma_compiled_type_checks(dest: Reg, lab: Seq<char>, v: crate::interp::SnakeVal)
    requires
        crate::interp::in_range(v),
    ensures
        exists|k: u32, m: Seq<char>| #![trigger jump_line(m, lab), instr_text(Instr::Test(BinArgs::ToReg(dest, Arg32::Unsigned(k))))] {
            &&& check_num_lines(dest, lab) == seq![instr_text(Instr::Test(BinArgs::ToReg(dest, Arg32::Unsigned(k)))), jump_line(m, lab)]
            &&& (test_jump_taken(m, crate::interp::encode(v) & (k as u64)) <==> !(v is Num))
        },
        exists|k: u32, m: Seq<char>| #![trigger jump_line(m, lab), instr_text(Instr::Test(BinArgs::ToReg(dest, Arg32::Unsigned(k))))] {
            &&& check_bool_lines(dest, lab) == seq![instr_text(Instr::Test(BinArgs::ToReg(dest, Arg32::Unsigned(k)))), jump_line(m, lab)]
            &&& (test_jump_taken(m, crate::interp::encode(v) & (k as u64)) <==> !(v is Bool))
        },
{
    lemma_test_mnemonics();
    lemma_word_bits(v);
    assert(jump_line("jnz "@, lab) == jump_line("jnz "@, lab));
    assert(jump_line("jz "@, lab) == jump_line("jz "@, lab));
    assert(instr_text(Instr::Test(BinArgs::ToReg(dest, Arg32::Unsigned(1)))) == instr_text(Instr::Test(BinArgs::ToReg(dest, Arg32::Unsigned(1)))));
}

/// A compiled conditional goes to the code of its `else` branch exactly
/// when the word of its condition is that of false: it tests the word
/// against a mask and jumps to the label placed before that code.
pub proof fn lemma_compiled_if(e: SeqExp<u32>, args: Seq<(String, i32)>, env: VecMap<String, VarLocation>, used: Set<Reg>,
    dest: Reg, is_tail: bool, b: bool)
    requires
        e is If,
    ensures
        exists|k: u64, m: Seq<char>| #![trigger jump_line(m, tag_label("if_false#"@, e->If_ann)), mov_line(Reg::R15, Arg64::Unsigned(k))] {
            &&& code_lines(e, args, env, used, dest, is_tail) == imm_lines(e->cond, args, env@, dest) + check_bool_lines(dest, "cond_error"@)
                + seq![
                    mov_line(Reg::R15, Arg64::Unsigned(k)),
                    instr_text(Instr::Test(BinArgs::ToReg(dest, Arg32::Reg(Reg::R15)))),
                    jump_line(m, tag_label("if_false#"@, e->If_ann)),
                ]
                + code_lines(*e->thn, args, env, used, dest, is_tail)
                + seq![jump_line("jmp "@, tag_label("done#"@, e->If_ann)), label_line(tag_label("if_false#"@, e->If_ann))]
                + code_lines(*e->els, args, env, used, dest, is_tail)
                + seq![label_line(tag_label("done#"@, e->If_ann))]
            &&& (test_jump_taken(m, bool_word(b) & k) <==> !b)
        },
{
    lemma_test_mnemonics();
    lemma_word_bits(crate::interp::SnakeVal::Bool(b));
    assert(jump_line("jz "@, tag_label("if_false#"@, e->If_ann)) == jump_line("jz "@, tag_label("if_false#"@, e->If_ann)));
    assert(mov_line(Reg::R15, Arg64::Unsigned(bool_mask())) == mov_line(Reg::R15, Arg64::Unsigned(bool_mask())));
}

/// Appends the four instructions that leave in `dest` a boolean that is
/// true when the jump is taken.
fn push_flag(is: &mut Vec<Instr>, dest: Reg, jump: Instr, lab: String)
    requires
        instr_text(jump) == jump_line(jump_mnemonic(jump), lab@),
    ensures
        lines(final(is)@) == lines(old(is)@) + flag_lines(dest, jump_mnemonic(jump), lab@),
{
    push_instr(is, Instr::Mov(MovArgs::ToReg(dest, Arg64::Unsigned(0xFF_FF_FF_FF_FF_FF_FF_FF))));
    push_instr(is, jump);
    push_instr(is, Instr::Mov(MovArgs::ToReg(dest, Arg64::Unsigned(0x7F_FF_FF_FF_FF_FF_FF_FF))));
    push_instr(is, Instr::Label(lab));
    proof {
        assert(lines(is@) =~= lines(old(is)@) + flag_lines(dest, jump_mnemonic(jump), lab@));
    }
}

/// The mnemonic (with its trailing space) of a conditional jump.
pub open spec fn jump_mnemonic(i: Instr) -> Seq<char> {
    match i {
        Instr::Je(_) => "je "@,
        Instr::Jne(_) => "jne "@,
        Instr::Jl(_) => "jl "@,
        Instr::Jle(_) => "jle "@,
        Instr::Jg(_) => "jg "@,
        Instr::Jge(_) => "jge "@,
        Instr::Jz(_) => "jz "@,
        Instr::Jnz(_) => "jnz "@,
        _ => Seq::empty(),
    }
}

fn compile_prim1_op(op: Prim1, dest: Reg, tag: u32, env_lcl: &VecMap<String, VarLocation>, used_regs: &Vec<Reg>) -> (is: Vec<Instr>)
    requires
        op != Prim1::PrintStack,
    ensures
        lines(is@) == prim1_lines(op, dest, tag, saved_regs(env_lcl.entry_seq(), used_regs@.to_set())),
{
    let mut is: Vec<Instr> = Vec::new();
    match op {
        Prim1::Add1 => {
            append_all(&mut is, check_isnum(dest, "arith_error"));
            push_instr(&mut is, Instr::Add(BinArgs::ToReg(dest, Arg32::Signed(2))));
            append_all(&mut is, check_overflow());
        },
        Prim1::Sub1 => {
            append_all(&mut is, check_isnum(dest, "arith_error"));
            push_instr(&mut is, Instr::Sub(BinArgs::ToReg(dest, Arg32::Signed(2))));
            append_all(&mut is, check_overflow());
        },
        Prim1::Not => {
            append_all(&mut is, check_isbool(dest, "logic_error"));
            push_instr(&mut is, Instr::Mov(MovArgs::ToReg(Reg::R15, Arg64::Unsigned(0x80_00_00_00_00_00_00_00))));
            push_instr(&mut is, Instr::Xor(BinArgs::ToReg(dest, Arg32::Reg(Reg::R15))));
        },
        Prim1::Print => {
            let (is_push, is_pop) = compile_caller_saved(env_lcl, used_regs);
            append_all(&mut is, is_push);
            push_instr(&mut is, Instr::Mov(MovArgs::ToReg(Reg::Rdi, Arg64::Reg(dest))));
            push_instr(&mut is, Instr::Call(String::from_str("print_snake_val")));
            append_all(&mut is, is_pop);
        },
        Prim1::IsBool => {
            let lab = tag_label_string("isbool#", tag);
            push_instr(&mut is, Instr::Mov(MovArgs::ToReg(Reg::R15, Arg64::Unsigned(0x01))));
            push_instr(&mut is, Instr::Test(BinArgs::ToReg(dest, Arg32::Reg(Reg::R15))));
            push_flag(&mut is, dest, Instr::Jnz(lab.clone()), lab);
        },
        Prim1::IsNum => {
            let lab = tag_label_string("isnum#", tag);
            push_instr(&mut is, Instr::Mov(MovArgs::ToReg(Reg::R15, Arg64::Unsigned(0x01))));
            push_instr(&mut is, Instr::Test(BinArgs::ToReg(dest, Arg32::Reg(Reg::R15))));
            push_flag(&mut is, dest, Instr::Jz(lab.clone()), lab);
        },
        Prim1::PrintStack => {
            // excluded by the precondition
        },
    }
    proof {
        assert(lines(is@) =~= prim1_lines(op, dest, tag, saved_regs(env_lcl.entry_seq(), used_regs@.to_set())));
    }
    is
}

fn compile_cmp(is: &mut Vec<Instr>, dest: Reg, jump: Instr, lab: String)
    requires
        instr_text(jump) == jump_line(jump_mnemonic(jump), lab@),
    ensures
        lines(final(is)@) == lines(old(is)@) + cmp_lines(dest, jump_mnemonic(jump), lab@),
{
    append_all(is, check_isnum(dest, "cmp_error"));
    append_all(is, check_isnum(Reg::R15, "cmp_error"));
    push_instr(is, Instr::Cmp(BinArgs::ToReg(dest, Arg32::Reg(Reg::R15))));
    push_flag(is, dest, jump, lab);
    proof {
        assert(lines(final(is)@) =~= lines(old(is)@) + cmp_lines(dest, jump_mnemonic(jump), lab@));
    }
}

fn compile_prim2_op(op: Prim2, dest: Reg, tag: u32) -> (is: Vec<Instr>)
    ensures
        lines(is@) == prim2_lines(op, dest, tag),
{
    let mut is: Vec<Instr> = Vec::new();
    match op {
        Prim2::Add => {
            append_all(&mut is, check_isnum(dest, "arith_error"));
            append_all(&mut is, check_isnum(Reg::R15, "arith_error"));
            push_instr(&mut is, Instr::Add(BinArgs::ToReg(dest, Arg32::Reg(Reg::R15))));
            append_all(&mut is, check_overflow());
        },
        Prim2::Sub => {
            append_all(&mut is, check_isnum(dest, "arith_error"));
            append_all(&mut is, check_isnum(Reg::R15, "arith_error"));
            push_instr(&mut is, Instr::Sub(BinArgs::ToReg(dest, Arg32::Reg(Reg::R15))));
            append_all(&mut is, check_overflow());
        },
        Prim2::Mul => {
            append_all(&mut is, check_isnum(dest, "arith_error"));
            append_all(&mut is, check_isnum(Reg::R15, "arith_error"));
            push_instr(&mut is, Instr::Sar(BinArgs::ToReg(dest, Arg32::Signed(1))));
            push_instr(&mut is, Instr::IMul(BinArgs::ToReg(dest, Arg32::Reg(Reg::R15))));
            append_all(&mut is, check_overflow());
        },
        Prim2::And => {
            append_all(&mut is, check_isbool(dest, "logic_error"));
            append_all(&mut is, check_isbool(Reg::R15, "logic_error"));
            push_instr(&mut is, Instr::And(BinArgs::ToReg(dest, Arg32::Reg(Reg::R15))));
        },
        Prim2::Or => {
            append_all(&mut is, check_isbool(dest, "logic_error"));
            append_all(&mut is, check_isbool(Reg::R15, "logic_error"));
            push_instr(&mut is, Instr::Or(BinArgs::ToReg(dest, Arg32::Reg(Reg::R15))));
        },
        Prim2::Lt => {
            let lab = tag_label_string("lt#", tag);
            compile_cmp(&mut is, dest, Instr::Jl(lab.clone()), lab);
        },
        Prim2::Gt => {
            let lab = tag_label_string("gt#", tag);
            compile_cmp(&mut is, dest, Instr::Jg(lab.clone()), lab);
        },
        Prim2::Le => {
            let lab = tag_label_string("le#", tag);
            compile_cmp(&mut is, dest, Instr::Jle(lab.clone()), lab);
        },
        Prim2::Ge => {
            let lab = tag_label_string("ge#", tag);
            compile_cmp(&mut is, dest, Instr::Jge(lab.clone()), lab);
        },
        Prim2::Eq => {
            let lab = tag_label_string("eq#", tag);
            push_instr(&mut is, Instr::Cmp(BinArgs::ToReg(dest, Arg32::Reg(Reg::R15))));
            push_flag(&mut is, dest, Instr::Je(lab.clone()), lab);
        },
        Prim2::Neq => {
            let lab = tag_label_string("neq#", tag);
            push_instr(&mut is, Instr::Cmp(BinArgs::ToReg(dest, Arg32::Reg(Reg::R15))));
            push_flag(&mut is, dest, Instr::Jne(lab.clone()), lab);
        },
    }
    proof {
        assert(lines(is@) =~= prim2_lines(op, dest, tag));
    }
    is
}


/// Stores `dest` in the place of a variable.
pub open spec fn save_lines(loc: VarLocation, dest: Reg) -> Seq<Seq<char>> {
    match loc {
        VarLocation::Reg(r) => seq![mov_line(r, Arg64::Reg(dest))],
        VarLocation::Spill(n) => seq![instr_text(Instr::Mov(MovArgs::ToMem(spill_slot(n), Reg32::Reg(dest))))],
    }
}

/// The registers written so far, after a variable is stored in `loc`.
pub open spec fn used_after(used: Set<Reg>, loc: VarLocation) -> Set<Reg> {
    match loc {
        VarLocation::Reg(r) => used.insert(r),
        _ => used,
    }
}

/// Some argument is read from a slot that a tail call overwrites.
pub open spec fn cyclic(imms: Seq<ImmExp>, env: Map<Seq<char>, VarLocation>) -> bool {
    exists|i: int| 0 <= i < imms.len() && (#[trigger] imms[i] matches ImmExp::Var(v) && !env.contains_key(v@))
}

/// Each of the first `k` arguments moved to `dest` and pushed.
pub open spec fn cyc_push(imms: Seq<ImmExp>, args: Seq<(String, i32)>, env: Map<Seq<char>, VarLocation>, dest: Reg, k: int) -> Seq<Seq<char>>
    decreases k,
{
    if k <= 0 {
        Seq::empty()
    } else {
        cyc_push(imms, args, env, dest, k - 1) + imm_lines(imms[k - 1], args, env, dest)
            + seq![instr_text(Instr::Push(Arg32::Reg(Reg::Rax)))]
    }
}

/// The argument slots from `n - 1` down to `k` popped.
pub open spec fn cyc_pop(n: int, k: int) -> Seq<Seq<char>>
    decreases n - k,
{
    if k >= n {
        Seq::empty()
    } else {
        cyc_pop(n, k + 1) + seq![instr_text(Instr::Pop(Loc::Mem(arg_slot(k))))]
    }
}

/// Each of the first `k` arguments moved to `dest`, then to its slot.
pub open spec fn tail_moves(imms: Seq<ImmExp>, args: Seq<(String, i32)>, env: Map<Seq<char>, VarLocation>, dest: Reg, k: int) -> Seq<Seq<char>>
    decreases k,
{
    if k <= 0 {
        Seq::empty()
    } else {
        tail_moves(imms, args, env, dest, k - 1) + imm_lines(imms[k - 1], args, env, dest)
            + seq![instr_text(Instr::Mov(MovArgs::ToMem(arg_slot(k - 1), Reg32::Reg(Reg::Rax))))]
    }
}

/// The arguments from `n - 1` down to `k` moved to `dest` and pushed.
pub open spec fn rev_pushes(imms: Seq<ImmExp>, args: Seq<(String, i32)>, env: Map<Seq<char>, VarLocation>, dest: Reg, n: int, k: int) -> Seq<Seq<char>>
    decreases n - k,
{
    if k >= n {
        Seq::empty()
    } else {
        rev_pushes(imms, args, env, dest, n, k + 1) + imm_lines(imms[k], args, env, dest)
            + seq![instr_text(Instr::Push(Arg32::Reg(dest)))]
    }
}

/// A call: in tail position with no more arguments than the caller, the
/// arguments replace the caller's and the callee is jumped to; otherwise
/// the live caller-saved registers are saved, the arguments pushed last
/// first, and the callee called.
pub open spec fn call_lines(name: Seq<char>, imms: Seq<ImmExp>, args: Seq<(String, i32)>, env: VecMap<String, VarLocation>,
    used: Set<Reg>, dest: Reg, is_tail: bool) -> Seq<Seq<char>> {
    let n = imms.len() as int;
    if is_tail && imms.len() <= args.len() {
        (if cyclic(imms, env@) {
            cyc_push(imms, args, env@, dest, n) + cyc_pop(n, 0)
        } else {
            tail_moves(imms, args, env@, dest, n)
        }) + seq![mov_line(Reg::Rsp, Arg64::Reg(Reg::Rbp))] + callee_pop_lines() + seq![jump_line("jmp "@, name)]
    } else {
        push_lines(saved_regs(env.entry_seq(), used)) + rev_pushes(imms, args, env@, dest, n, 0)
            + seq![jump_line("call "@, name), instr_text(Instr::Sub(BinArgs::ToReg(Reg::Rsp, Arg32::Signed((-8 * n) as i32))))]
            + pop_lines(saved_regs(env.entry_seq(), used))
    }
}

/// The code of `e`, leaving its value in `dest`.
pub open spec fn code_lines(e: SeqExp<u32>, args: Seq<(String, i32)>, env: VecMap<String, VarLocation>, used: Set<Reg>,
    dest: Reg, is_tail: bool) -> Seq<Seq<char>>
    decreases e,
{
    match e {
        SeqExp::Imm(i, _) => imm_lines(i, args, env@, dest),
        SeqExp::Prim1(op, i, tag) => imm_lines(i, args, env@, dest) + prim1_lines(op, dest, tag, saved_regs(env.entry_seq(), used)),
        SeqExp::Prim2(op, i1, i2, tag) => imm_lines(i1, args, env@, dest) + imm_lines(i2, args, env@, Reg::R15)
            + prim2_lines(op, dest, tag),
        SeqExp::Let { var, bound_exp, body, .. } => code_lines(*bound_exp, args, env, used, dest, false)
            + save_lines(env@[var@], dest)
            + code_lines(*body, args, env, used_after(used, env@[var@]), dest, is_tail),
        SeqExp::If { cond, thn, els, ann } => imm_lines(cond, args, env@, dest) + check_bool_lines(dest, "cond_error"@)
            + seq![
                mov_line(Reg::R15, Arg64::Unsigned(bool_mask())),
                instr_text(Instr::Test(BinArgs::ToReg(dest, Arg32::Reg(Reg::R15)))),
                jump_line("jz "@, tag_label("if_false#"@, ann)),
            ]
            + code_lines(*thn, args, env, used, dest, is_tail)
            + seq![jump_line("jmp "@, tag_label("done#"@, ann)), label_line(tag_label("if_false#"@, ann))]
            + code_lines(*els, args, env, used, dest, is_tail)
            + seq![label_line(tag_label("done#"@, ann))],
        SeqExp::Call(name, imms, _) => call_lines(name@, imms@, args, env, used, dest, is_tail),
    }
}

/// `e` can be compiled: every variable it binds has a place, none of its
/// primitives prints the stack, and its calls have few enough arguments
/// for 32-bit stack offsets.
pub open spec fn compilable(e: SeqExp<u32>, env: Map<Seq<char>, VarLocation>) -> bool
    decreases e,
{
    match e {
        SeqExp::Prim1(op, _, _) => op != Prim1::PrintStack,
        SeqExp::Let { var, bound_exp, body, .. } =>
            env.contains_key(var@) && compilable(*bound_exp, env) && compilable(*body, env),
        SeqExp::If { thn, els, .. } => compilable(*thn, env) && compilable(*els, env),
        SeqExp::Call(_, imms, _) => imms@.len() < 0x0800_0000,
        _ => true,
    }
}

/// Whether some argument is read from a slot that a tail call overwrites.
fn is_cyclic(imms: &Vec<ImmExp>, env_lcl: &VecMap<String, VarLocation>) -> (b: bool)
    ensures
        b == cyclic(imms@, env_lcl@),
{
    let mut i: usize = 0;
    while i < imms.len()
        invariant
            i <= imms@.len(),
            forall|j: int| 0 <= j < i ==> !(#[trigger] imms@[j] matches ImmExp::Var(v) && !env_lcl@.contains_key(v@)),
        decreases imms@.len() - i,
    {
        match &imms[i] {
            ImmExp::Var(v) => {
                if !env_lcl.contains_key(v) {
                    return true;
                }
            },
            _ => {},
        }
        i = i + 1;
    }
    false
}

fn compile_call(name: &String, imms: &Vec<ImmExp>, env_arg: &Vec<(String, i32)>, env_lcl: &VecMap<String, VarLocation>,
    used_regs: &Vec<Reg>, dest: Reg, is_tail: bool) -> (is: Vec<Instr>)
    requires
        imms@.len() < 0x0800_0000,
        small_env(env_arg@, env_lcl@),
        forall|i: int| 0 <= i < imms@.len() ==> (#[trigger] imms@[i] matches ImmExp::Var(v) ==> placed(env_arg@, env_lcl@, v@)),
    ensures
        lines(is@) == call_lines(name@, imms@, env_arg@, *env_lcl, used_regs@.to_set(), dest, is_tail),
{
    let mut is = Vec::<Instr>::new();
    let callee_arg_num = imms.len();
    let caller_arg_num = env_arg.len();
    let ghost n = imms@.len() as int;
    if is_tail && callee_arg_num <= caller_arg_num {
        if is_cyclic(imms, env_lcl) {
            let mut i: usize = 0;
            while i < imms.len()
                invariant
                    i <= imms@.len(),
                    n == imms@.len(),
                    imms@.len() < 0x0800_0000,
                    small_env(env_arg@, env_lcl@),
                    forall|j: int| 0 <= j < imms@.len() ==> (#[trigger] imms@[j] matches ImmExp::Var(v) ==> placed(env_arg@, env_lcl@, v@)),
                    lines(is@) == cyc_push(imms@, env_arg@, env_lcl@, dest, i as int),
                decreases imms@.len() - i,
            {
                append_all(&mut is, compile_imm(&imms[i], env_arg, env_lcl, dest));
                push_instr(&mut is, Instr::Push(Arg32::Reg(Reg::Rax)));
                i = i + 1;
            }
            let ghost pre = lines(is@);
            let mut k: usize = imms.len();
            while k > 0
                invariant
                    k <= imms@.len(),
                    n == imms@.len(),
                    imms@.len() < 0x0800_0000,
                    lines(is@) == pre + cyc_pop(n, k as int),
                decreases k,
            {
                push_instr(&mut is, Instr::Pop(Loc::Mem(MemRef { reg: Reg::Rbp, offset: ((k - 1) as i32 + 5) * 8 })));
                proof { assert(pre + cyc_pop(n, k - 1) =~= pre + cyc_pop(n, k as int) + seq![instr_text(Instr::Pop(Loc::Mem(arg_slot(k - 1))))]); }
                k = k - 1;
            }
        } else {
            let mut i: usize = 0;
            while i < imms.len()
                invariant
                    i <= imms@.len(),
                    imms@.len() < 0x0800_0000,
                    small_env(env_arg@, env_lcl@),
                    forall|j: int| 0 <= j < imms@.len() ==> (#[trigger] imms@[j] matches ImmExp::Var(v) ==> placed(env_arg@, env_lcl@, v@)),
                    lines(is@) == tail_moves(imms@, env_arg@, env_lcl@, dest, i as int),
                decreases imms@.len() - i,
            {
                append_all(&mut is, compile_imm(&imms[i], env_arg, env_lcl, dest));
                push_instr(&mut is, Instr::Mov(MovArgs::ToMem(MemRef { reg: Reg::Rbp, offset: (i as i32 + 5) * 8 }, Reg32::Reg(Reg::Rax))));
                i = i + 1;
            }
        }
        push_instr(&mut is, Instr::Mov(MovArgs::ToReg(Reg::Rsp, Arg64::Reg(Reg::Rbp))));
        let (_, is_pop) = compile_callee_saved();
        append_all(&mut is, is_pop);
        push_instr(&mut is, Instr::Jmp(name.clone()));
    } else {
        let (is_push, is_pop) = compile_caller_saved(env_lcl, used_regs);
        append_all(&mut is, is_push);
        let offset = -8 * imms.len() as i32;
        let ghost pre = lines(is@);
        let mut k: usize = imms.len();
        while k > 0
            invariant
                k <= imms@.len(),
                n == imms@.len(),
                small_env(env_arg@, env_lcl@),
                forall|j: int| 0 <= j < imms@.len() ==> (#[trigger] imms@[j] matches ImmExp::Var(v) ==> placed(env_arg@, env_lcl@, v@)),
                lines(is@) == pre + rev_pushes(imms@, env_arg@, env_lcl@, dest, n, k as int),
            decreases k,
        {
            append_all(&mut is, compile_imm(&imms[k - 1], env_arg, env_lcl, dest));
            push_instr(&mut is, Instr::Push(Arg32::Reg(dest)));
            proof {
                assert(pre + rev_pushes(imms@, env_arg@, env_lcl@, dest, n, k - 1) =~= pre + rev_pushes(imms@, env_arg@, env_lcl@, dest, n, k as int)
                    + imm_lines(imms@[k - 1], env_arg@, env_lcl@, dest) + seq![instr_text(Instr::Push(Arg32::Reg(dest)))]);
            }
            k = k - 1;
        }
        push_instr(&mut is, Instr::Call(name.clone()));
        push_instr(&mut is, Instr::Sub(BinArgs::ToReg(Reg::Rsp, Arg32::Signed(offset))));
        append_all(&mut is, is_pop);
    }
    proof {
        assert(lines(is@) =~= call_lines(name@, imms@, env_arg@, *env_lcl, used_regs@.to_set(), dest, is_tail));
    }
    is
}

proof fn lemma_push_to_set(s: Seq<Reg>, r: Reg)
    ensures
        s.push(r).to_set() == s.to_set().insert(r),
{
    assert forall|x: Reg| s.push(r).to_set().contains(x) <==> s.to_set().insert(r).contains(x) by {
        if x == r {
            assert(s.push(r)[s.len() as int] == r);
        } else if s.contains(x) {
            let i = choose|i: int| 0 <= i < s.len() && s[i] == x;
            assert(s.push(r)[i] == x);
        } else if s.push(r).contains(x) {
            let i = choose|i: int| 0 <= i < s.len() + 1 && s.push(r)[i] == x;
            assert(s[i] == x);
        }
    }
    assert(s.push(r).to_set() =~= s.to_set().insert(r));
}

/// Stores `dest` in the place of `var`, and records a register so written.
fn store_var(is: &mut Vec<Instr>, used_regs: &mut Vec<Reg>, var: &String, env_lcl: &VecMap<String, VarLocation>, dest: Reg)
    requires
        env_lcl@.contains_key(var@),
        small_env(Seq::empty(), env_lcl@),
    ensures
        lines(final(is)@) == lines(old(is)@) + save_lines(env_lcl@[var@], dest),
        final(used_regs)@.to_set() == used_after(old(used_regs)@.to_set(), env_lcl@[var@]),
{
    match env_lcl.get(var) {
        Some(vl) => match vl {
            VarLocation::Reg(r) => {
                push_instr(is, Instr::Mov(MovArgs::ToReg(*r, Arg64::Reg(dest))));
                proof { lemma_push_to_set(used_regs@, *r); }
                if !has_reg(used_regs, *r) {
                    used_regs.push(*r);
                } else {
                    proof { assert(used_regs@.to_set() =~= used_regs@.to_set().insert(*r)); }
                }
            },
            VarLocation::Spill(n) => {
                push_instr(is, Instr::Mov(MovArgs::ToMem(MemRef { reg: Reg::Rbp, offset: (*n + 1) * (-8) }, Reg32::Reg(dest))));
            },
        },
        None => {},
    }
    proof {
        assert(lines(final(is)@) =~= lines(old(is)@) + save_lines(env_lcl@[var@], dest));
    }
}

/// The code of `e`, leaving its value in `dest`; `used_regs` are the
/// registers that the code before it has written, `is_tail` tells whether
/// its value is the function's result.
#[verifier::rlimit(40)]
fn compile_with_env(
    e: &SeqExp<u32>,
    env_arg: &Vec<(String, i32)>,
    env_lcl: &VecMap<String, VarLocation>,
    used_regs: Vec<Reg>,
    dest: Reg,
    is_tail: bool,
) -> (is: Vec<Instr>)
    requires
        dest != Reg::R15,
        compilable(*e, env_lcl@),
        small_env(env_arg@, env_lcl@),
        reads_placed(*e, env_arg@, env_lcl@),
    ensures
        lines(is@) == code_lines(*e, env_arg@, *env_lcl, used_regs@.to_set(), dest, is_tail),
    decreases e,
{
    let ghost used = used_regs@.to_set();
    proof { lemma_reads_placed_parts(*e, env_arg@, env_lcl@); }
    match e {
        SeqExp::Imm(imm, _) => compile_imm(imm, env_arg, env_lcl, dest),
        SeqExp::Prim1(prim1, imm, ann) => {
            let mut is = compile_imm(imm, env_arg, env_lcl, dest);
            append_all(&mut is, compile_prim1_op(*prim1, dest, *ann, env_lcl, &used_regs));
            is
        },
        SeqExp::Prim2(prim2, imm1, imm2, ann) => {
            let mut is = compile_imm(imm1, env_arg, env_lcl, dest);
            append_all(&mut is, compile_imm(imm2, env_arg, env_lcl, Reg::R15));
            append_all(&mut is, compile_prim2_op(*prim2, dest, *ann));
            is
        },
        SeqExp::Let { var, bound_exp, body, .. } => {
            let mut used_regs = used_regs;
            let mut is = compile_with_env(bound_exp, env_arg, env_lcl, crate::regalloc::copy_regs(&used_regs), dest, false);
            store_var(&mut is, &mut used_regs, var, env_lcl, dest);
            append_all(&mut is, compile_with_env(body, env_arg, env_lcl, used_regs, dest, is_tail));
            is
        },
        SeqExp::If { cond, thn, els, ann } => {
            let else_lab = tag_label_string("if_false#", *ann);
            let done_lab = tag_label_string("done#", *ann);
            let mut is = compile_imm(cond, env_arg, env_lcl, dest);
            append_all(&mut is, check_isbool(dest, "cond_error"));
            push_instr(&mut is, Instr::Mov(MovArgs::ToReg(Reg::R15, Arg64::Unsigned(0x80_00_00_00_00_00_00_00))));
            push_instr(&mut is, Instr::Test(BinArgs::ToReg(dest, Arg32::Reg(Reg::R15))));
            push_instr(&mut is, Instr::Jz(else_lab.clone()));
            append_all(&mut is, compile_with_env(thn, env_arg, env_lcl, crate::regalloc::copy_regs(&used_regs), dest, is_tail));
            push_instr(&mut is, Instr::Jmp(done_lab.clone()));
            push_instr(&mut is, Instr::Label(else_lab));
            append_all(&mut is, compile_with_env(els, env_arg, env_lcl, used_regs, dest, is_tail));
            push_instr(&mut is, Instr::Label(done_lab));
            proof {
                assert(lines(is@) =~= code_lines(*e, env_arg@, *env_lcl, used, dest, is_tail));
            }
            is
        },
        SeqExp::Call(name, imms, _) => {
            proof {
                assert forall|i: int| 0 <= i < imms@.len() implies (#[trigger] imms@[i] matches ImmExp::Var(v) ==> placed(env_arg@, env_lcl@, v@)) by {
                    lemma_imms_vars_has(imms@, i);
                    if let ImmExp::Var(v) = imms@[i] {
                        assert(reads(*e).contains(v@));
                    }
                }
            }
            compile_call(name, imms, env_arg, env_lcl, &used_regs, dest, is_tail)
        },
    }
}

/* Functions */

/// The number of variables placed in spill slots.
pub open spec fn spill_count(ents: Seq<(String, VarLocation)>) -> nat
    decreases ents.len(),
{
    if ents.len() == 0 {
        0
    } else {
        spill_count(ents.drop_last()) + (if ents.last().1 is Spill { 1nat } else { 0nat })
    }
}

/// The 8-byte slots reserved below `rbp`: room for the spilled variables,
/// rounded so that the stack stays 16-byte aligned at calls.
pub open spec fn frame_slots(nargs: int, spills: int) -> int {
    if nargs % 2 == 0 { spills / 2 * 2 + 1 } else { (spills + 1) / 2 * 2 }
}

/// The code of a function body: save the callee-saved registers, set up
/// the frame, run `e` with its value left in `rax`, undo and return.
pub open spec fn body_lines(args: Seq<(String, i32)>, env: VecMap<String, VarLocation>, e: SeqExp<u32>) -> Seq<Seq<char>> {
    let space = frame_slots(args.len() as int, spill_count(env.entry_seq()) as int);
    callee_push_lines() + seq![mov_line(Reg::Rbp, Arg64::Reg(Reg::Rsp))]
        + (if space != 0 { seq![instr_text(Instr::Sub(BinArgs::ToReg(Reg::Rsp, Arg32::Signed((space * 8) as i32))))] } else { Seq::empty() })
        + code_lines(e, args, env, Set::empty(), Reg::Rax, true)
        + seq![mov_line(Reg::Rsp, Arg64::Reg(Reg::Rbp))] + callee_pop_lines() + seq![instr_text(Instr::Ret)]
}

fn compile_to_instrs(env_arg: &Vec<(String, i32)>, env_lcl: &VecMap<String, VarLocation>, e: &SeqExp<u32>) -> (is: Vec<Instr>)
    requires
        compilable(*e, env_lcl@),
        small_env(env_arg@, env_lcl@),
        reads_placed(*e, env_arg@, env_lcl@),
        env_lcl.entry_seq().len() < 0x0800_0000,
    ensures
        lines(is@) == body_lines(env_arg@, *env_lcl, *e),
{
    let ents = env_lcl.entries();
    let mut space_lcl: i32 = 0;
    let mut i: usize = 0;
    while i < ents.len()
        invariant
            i <= ents@.len(),
            ents@ == env_lcl.entry_seq(),
            ents@.len() < 0x0800_0000,
            space_lcl == spill_count(ents@.subrange(0, i as int)),
            space_lcl <= i,
        decreases ents@.len() - i,
    {
        proof { assert(ents@.subrange(0, i + 1).drop_last() =~= ents@.subrange(0, i as int)); }
        match ents[i].1 {
            VarLocation::Spill(_) => {
                space_lcl = space_lcl + 1;
            },
            _ => {},
        }
        i = i + 1;
    }
    proof { assert(ents@.subrange(0, ents@.len() as int) =~= ents@); }
    let space: i32 = if env_arg.len() % 2 == 0 { space_lcl / 2 * 2 + 1 } else { (space_lcl + 1) / 2 * 2 };
    let mut is = Vec::<Instr>::new();
    let (is_push, is_pop) = compile_callee_saved();
    append_all(&mut is, is_push);
    push_instr(&mut is, Instr::Mov(MovArgs::ToReg(Reg::Rbp, Arg64::Reg(Reg::Rsp))));
    if space != 0 {
        push_instr(&mut is, Instr::Sub(BinArgs::ToReg(Reg::Rsp, Arg32::Signed(space * 8))));
    }
    let used: Vec<Reg> = Vec::new();
    proof { assert(used@.to_set() =~= Set::<Reg>::empty()); }
    append_all(&mut is, compile_with_env(e, env_arg, env_lcl, used, Reg::Rax, true));
    push_instr(&mut is, Instr::Mov(MovArgs::ToReg(Reg::Rsp, Arg64::Reg(Reg::Rbp))));
    append_all(&mut is, is_pop);
    push_instr(&mut is, Instr::Ret);
    proof {
        assert(lines(is@) =~= body_lines(env_arg@, *env_lcl, *e));
    }
    is
}

/// An expression of moderate size, fit for code generation, whose bound
/// variables all have a place can be compiled.
proof fn lemma_compilable(e: SeqExp<u32>, env: Map<Seq<char>, VarLocation>)
    requires
        let_vars(e).subset_of(env.dom()),
        seq_size(e) < 0x0800_0000,
        stackless(e),
    ensures
        compilable(e, env),
    decreases e,
{
    match e {
        SeqExp::Let { bound_exp, body, .. } => {
            lemma_compilable(*bound_exp, env);
            lemma_compilable(*body, env);
        },
        SeqExp::If { thn, els, .. } => {
            lemma_compilable(*thn, env);
            lemma_compilable(*els, env);
        },
        _ => {},
    }
}

/// The conflict graph of an annotated body.
pub open spec fn conflict_graph<A>(body: SeqExp<(VecSet<String>, A)>) -> Map<Seq<char>, Set<Seq<char>>> {
    graph_add(Map::empty(), let_vars(body), conflict_pairs(body, Seq::empty()))
}

/// The slots of the parameters: the `i`-th parameter in argument slot `i`.
pub open spec fn param_slots(args: Seq<(String, i32)>, params: Seq<String>) -> bool {
    &&& args.len() == params.len()
    &&& forall|i: int| 0 <= i < args.len() ==> (#[trigger] args[i]).0@ == params[i]@ && args[i].1 == i
}

/// `code` is the code, labelled `label`, of a function that takes `params`
/// and whose live-annotated, tagged body is `body`: `b` is `body` with its
/// tags alone, `args` the parameters' slots, `env` a colouring of the
/// conflict graph with the general-purpose registers and spill slots, in
/// which every variable that the body reads has a place or is a parameter.
pub open spec fn fun_code(params: Seq<String>, body: SeqExp<(VecSet<String>, u32)>, label: Seq<char>,
    args: Seq<(String, i32)>, env: VecMap<String, VarLocation>, b: SeqExp<u32>, code: Seq<Seq<char>>) -> bool {
    &&& seq_same_shape(body, b)
    &&& seq_anns(b) == seq_anns(body).map_values(|a: (VecSet<String>, u32)| a.1)
    &&& param_slots(args, params)
    &&& proper_coloring(conflict_graph(body), env@, general_purpose_regs())
    &&& reads(b).subset_of(views(params).to_set().union(env@.dom()))
    &&& code == seq![label_line(label)] + body_lines(args, env, b)
}

/// Bodies that the code generator takes: of moderate size, reading only
/// parameters and variables bound around the read, never printing the
/// stack, with live sets made of variables that the body reads or binds.
pub open spec fn fun_compilable(params: Seq<String>, body: SeqExp<(VecSet<String>, u32)>) -> bool {
    &&& params.len() < 0x0800_0000
    &&& scoped(body, views(params).to_set())
    &&& stackless(body)
    &&& seq_size(body) < 0x0200_0000
    &&& anns_union(seq_anns(body)).subset_of(reads(body).union(let_vars(body)))
}

fn tag_of(a: &(VecSet<String>, u32)) -> (t: u32)
    ensures
        t == a.1,
{
    a.1
}

/// The code of a function labelled `label`: its local variables placed by
/// register allocation, its parameters in the argument slots.
fn compile_body(label: String, params: &Vec<String>, body: &SeqExp<(VecSet<String>, u32)>) -> (is: Vec<Instr>)
    requires
        fun_compilable(params@, *body),
    ensures
        exists|args: Seq<(String, i32)>, env: VecMap<String, VarLocation>, b: SeqExp<u32>|
            fun_code(params@, *body, label@, args, env, b, lines(is@)),
{
    let g = conflicts(body);
    proof {
        let lv = let_vars(*body);
        let rd = reads(*body);
        lemma_vars_size(*body);
        assert forall|k: Seq<char>| g@.dom().contains(k) implies rd.union(lv).contains(k) by {
            if !lv.contains(k) {
                let b2 = choose|b2: Seq<char>| #[trigger] conflict_pairs(*body, Seq::empty()).contains((k, b2));
                lemma_conflict_endpoints(*body, Seq::empty(), k, b2);
            }
        }
        vstd::set_lib::lemma_len_union(rd, lv);
        vstd::set_lib::lemma_len_subset(g@.dom(), rd.union(lv));
    }
    let regs = general_purpose_registers();
    let env_lcl = allocate_registers(g, regs.as_slice());
    let mut env_arg: Vec<(String, i32)> = Vec::new();
    let mut i: usize = 0;
    while i < params.len()
        invariant
            i <= params@.len(),
            params@.len() < 0x0800_0000,
            env_arg@.len() == i,
            forall|j: int| 0 <= j < i ==> (#[trigger] env_arg@[j]).0@ == params@[j]@ && env_arg@[j].1 == j,
        decreases params@.len() - i,
    {
        env_arg.push((params[i].clone(), i as i32));
        i = i + 1;
    }
    let b = body.map_ann(&tag_of);
    let ghost tags = seq_anns(*body).map_values(|a: (VecSet<String>, u32)| a.1);
    let ents = env_lcl.entries();
    proof {
        assert(seq_anns(b) =~= tags);
        crate::measure::lemma_same_shape_size(*body, b);
        crate::vars::lemma_same_shape_vars(*body, b);
        lemma_entries_size(ents@);
        lemma_scoped_same_shape(*body, b, views(params@).to_set());
        lemma_stackless_same_shape(*body, b);
        lemma_compilable(b, env_lcl@);
        assert(small_env(env_arg@, env_lcl@));
        lemma_scoped_reads(b, views(params@).to_set());
        assert forall|x: Seq<char>| #[trigger] reads(b).contains(x) implies placed(env_arg@, env_lcl@, x) by {
            if !env_lcl@.contains_key(x) {
                assert(views(params@).to_set().contains(x));
                let j = choose|j: int| 0 <= j < views(params@).len() && views(params@)[j] == x;
                assert(env_arg@[j].0@ == params@[j]@);
                lemma_lookup_found(env_arg@, x, j);
            }
        }
    }
    let mut is = Vec::<Instr>::new();
    push_instr(&mut is, Instr::Label(label));
    append_all(&mut is, compile_to_instrs(&env_arg, &env_lcl, &b));
    proof {
        assert(seq_same_shape(*body, b));
        assert(param_slots(env_arg@, params@));
        assert(proper_coloring(conflict_graph(*body), env_lcl@, general_purpose_regs()));
        assert(reads(b).subset_of(views(params@).to_set().union(env_lcl@.dom())));
        assert(lines(is@) =~= seq![label_line(label@)] + body_lines(env_arg@, env_lcl, b));
        assert(fun_code(params@, *body, label@, env_arg@, env_lcl, b, lines(is@)));
    }
    is
}

/// The code of a function declared with `name` and `params`.
fn compile_fun(name: &String, params: &Vec<String>, body: &SeqExp<(VecSet<String>, u32)>) -> (is: Vec<Instr>)
    requires
        fun_compilable(params@, *body),
    ensures
        fun_has_code(params@, *body, name@, lines(is@)),
{
    compile_body(name.clone(), params, body)
}

/// The code of the program's main expression, labelled `start_here`.
fn compile_main(e: &SeqExp<(VecSet<String>, u32)>) -> (is: Vec<Instr>)
    requires
        fun_compilable(Seq::empty(), *e),
    ensures
        fun_has_code(Seq::empty(), *e, "start_here"@, lines(is@)),
{
    let params: Vec<String> = Vec::new();
    compile_body(String::from_str("start_here"), &params, e)
}

/// `code` is the code of a function for some choice of slots, placements
/// and tags.
pub open spec fn fun_has_code(params: Seq<String>, body: SeqExp<(VecSet<String>, u32)>, label: Seq<char>, code: Seq<Seq<char>>) -> bool {
    exists|args: Seq<(String, i32)>, env: VecMap<String, VarLocation>, b: SeqExp<u32>|
        fun_code(params, body, label, args, env, b, code)
}

proof fn lemma_lookup_found(args: Seq<(String, i32)>, x: Seq<char>, i: int)
    requires
        0 <= i < args.len(),
        args[i].0@ == x,
    ensures
        fun_lookup(args, x) is Some,
    decreases args.len(),
{
    if args.last().0@ != x {
        assert(i < args.len() - 1);
        assert(args.drop_last()[i] == args[i]);
        lemma_lookup_found(args.drop_last(), x, i);
    }
}

/// In the code of a function, a variable that the body reads is never
/// left out: moving it into a register is one move from its place.
pub proof fn lemma_reads_placed(params: Seq<String>, body: SeqExp<(VecSet<String>, u32)>, label: Seq<char>,
    args: Seq<(String, i32)>, env: VecMap<String, VarLocation>, b: SeqExp<u32>, code: Seq<Seq<char>>, x: String, dest: Reg)
    requires
        fun_code(params, body, label, args, env, b, code),
        reads(b).contains(x@),
    ensures
        imm_lines(ImmExp::Var(x), args, env@, dest).len() == 1,
{
    if !env@.contains_key(x@) {
        assert(views(params).to_set().contains(x@));
        let i = choose|i: int| 0 <= i < views(params).len() && views(params)[i] == x@;
        assert(args[i].0@ == params[i]@);
        lemma_lookup_found(args, x@, i);
    }
}

/* Programs */

/// The lines, one after another.
pub open spec fn concat_codes(cs: Seq<Seq<Seq<char>>>) -> Seq<Seq<char>>
    decreases cs.len(),
{
    if cs.len() == 0 { Seq::empty() } else { concat_codes(cs.drop_last()) + cs.last() }
}

/// The lines, each ended by a newline.
pub open spec fn joined(ls: Seq<Seq<char>>) -> Seq<char>
    decreases ls.len(),
{
    if ls.len() == 0 { Seq::empty() } else { joined(ls.drop_last()) + ls.last() + "\n"@ }
}

proof fn lemma_instrs_text(is: Seq<Instr>)
    ensures
        instrs_text(is) == joined(lines(is)),
    decreases is.len(),
{
    if is.len() > 0 {
        lemma_instrs_text(is.drop_last());
        assert(lines(is).drop_last() =~= lines(is.drop_last()));
    }
}

/// What comes before the instructions in the assembly file.
pub open spec fn asm_header() -> Seq<char> {
    "section .text\n        global start_here\n        extern snake_error, print_snake_val\n"@
}

/// What comes after them: the error handlers, each calling `snake_error`
/// with its code.
pub open spec fn asm_footer() -> Seq<char> {
    "\n\novfl_error:\n        mov rdi, 0\n        call snake_error\n\narith_error:\n        mov rdi, 1\n        call snake_error\n\ncmp_error:\n        mov rdi, 2\n        call snake_error\n\nlogic_error:\n        mov rdi, 3\n        call snake_error\n\ncond_error:\n        mov rdi, 4\n        call snake_error\n"@
}

/// No primitive of `e` prints the stack, the one form that the code
/// generator leaves unimplemented.
pub open spec fn generable<A>(e: Exp<A>) -> bool
    decreases e,
{
    match e {
        Exp::Num(..) | Exp::Bool(..) | Exp::Var(..) => true,
        Exp::Prim1(op, e1, _) => op != Prim1::PrintStack && generable(*e1),
        Exp::Prim2(_, e1, e2, _) => generable(*e1) && generable(*e2),
        Exp::Let { bindings, body, .. } => binds_generable(bindings@) && generable(*body),
        Exp::If { cond, thn, els, .. } => generable(*cond) && generable(*thn) && generable(*els),
        Exp::Call(_, args, _) => args_generable(args@),
    }
}

pub open spec fn binds_generable<A>(bs: Seq<(String, Exp<A>)>) -> bool
    decreases bs,
{
    if bs.len() == 0 { true } else { binds_generable(bs.drop_last()) && generable(bs.last().1) }
}

pub open spec fn args_generable<A>(es: Seq<Exp<A>>) -> bool
    decreases es,
{
    if es.len() == 0 { true } else { args_generable(es.drop_last()) && generable(es.last()) }
}

/// A checked program that the compiler can translate: every `let` binds a
/// name, no primitive prints the stack (`generable`), and the program is of
/// a size for which every stack offset of its code fits in 32 bits (with
/// room: sequentialization may make four nodes of one, and a body may have
/// twice as many variables as nodes).
pub open spec fn compile_ready<A>(p: SurfProg<A>) -> bool {
    &&& prog_anns(p).len() < 0x0080_0000
    &&& forall|k: int| 0 <= k < p.funs@.len() ==> {
        &&& (#[trigger] p.funs@[k]).parameters@.len() < 0x0800_0000
        &&& lets_nonempty(p.funs@[k].body)
        &&& generable(p.funs@[k].body)
    }
    &&& lets_nonempty(p.main)
    &&& generable(p.main)
}

/// `n`, or `cap` if `n` is larger.
pub open spec fn capped(n: int, cap: u64) -> u64 {
    if n < cap { n as u64 } else { cap }
}

fn add_capped(a: u64, b: u64, cap: u64) -> (c: u64)
    requires
        a <= cap,
        b <= cap,
    ensures
        c == capped(a + b, cap),
{
    if a >= cap - b { cap } else { a + b }
}

/// Whether `e` passes `lets_nonempty` and `generable`, and its number of
/// annotations, counted up to `cap`.
#[verifier::loop_isolation(false)]
fn exp_ready<A>(e: &Exp<A>, cap: u64) -> (r: (bool, u64))
    ensures
        r.0 == (lets_nonempty(*e) && generable(*e)),
        r.1 == capped(exp_anns(*e).len() as int, cap),
    decreases e,
{
    match e {
        Exp::Num(..) | Exp::Bool(..) | Exp::Var(..) => (true, if cap >= 1 { 1 } else { 0 }),
        Exp::Prim1(op, e1, _) => {
            let (ok, n) = exp_ready(e1, cap);
            let stack = match op { Prim1::PrintStack => true, _ => false };
            (ok && !stack, add_capped(n, if cap >= 1 { 1 } else { 0 }, cap))
        },
        Exp::Prim2(_, e1, e2, _) => {
            let (ok1, n1) = exp_ready(e1, cap);
            let (ok2, n2) = exp_ready(e2, cap);
            let n = add_capped(n1, n2, cap);
            (ok1 && ok2, add_capped(n, if cap >= 1 { 1 } else { 0 }, cap))
        },
        Exp::Let { bindings, body, .. } => {
            let mut ok = true;
            let mut n: u64 = 0;
            let mut i: usize = 0;
            while i < bindings.len()
                invariant
                    i <= bindings@.len(),
                    ok == (binds_nonempty(bindings@.subrange(0, i as int)) && binds_generable(bindings@.subrange(0, i as int))),
                    n == capped(binds_anns(bindings@.subrange(0, i as int)).len() as int, cap),
                decreases bindings@.len() - i,
            {
                proof { assert(bindings@.subrange(0, i + 1).drop_last() =~= bindings@.subrange(0, i as int)); }
                let (_, be) = &bindings[i];
                let (oki, ni) = exp_ready(be, cap);
                ok = ok && oki;
                n = add_capped(n, ni, cap);
                i = i + 1;
            }
            proof { assert(bindings@.subrange(0, bindings@.len() as int) =~= bindings@); }
            let (okb, nb) = exp_ready(body, cap);
            let m = add_capped(n, nb, cap);
            (ok && okb && bindings.len() > 0, add_capped(m, if cap >= 1 { 1 } else { 0 }, cap))
        },
        Exp::If { cond, thn, els, .. } => {
            let (ok1, n1) = exp_ready(cond, cap);
            let (ok2, n2) = exp_ready(thn, cap);
            let (ok3, n3) = exp_ready(els, cap);
            let n = add_capped(add_capped(n1, n2, cap), n3, cap);
            (ok1 && ok2 && ok3, add_capped(n, if cap >= 1 { 1 } else { 0 }, cap))
        },
        Exp::Call(_, args, _) => {
            let mut ok = true;
            let mut n: u64 = 0;
            let mut i: usize = 0;
            while i < args.len()
                invariant
                    i <= args@.len(),
                    ok == (args_nonempty(args@.subrange(0, i as int)) && args_generable(args@.subrange(0, i as int))),
                    n == capped(args_anns(args@.subrange(0, i as int)).len() as int, cap),
                decreases args@.len() - i,
            {
                proof { assert(args@.subrange(0, i + 1).drop_last() =~= args@.subrange(0, i as int)); }
                let a = &args[i];
                let (oki, ni) = exp_ready(a, cap);
                ok = ok && oki;
                n = add_capped(n, ni, cap);
                i = i + 1;
            }
            proof { assert(args@.subrange(0, args@.len() as int) =~= args@); }
            (ok, add_capped(n, if cap >= 1 { 1 } else { 0 }, cap))
        },
    }
}

/// Whether `compile_to_string` takes the program (see `compile_ready`).
pub fn ready_to_compile<A>(p: &SurfProg<A>) -> (b: bool)
    ensures
        b == compile_ready(*p),
{
    let cap: u64 = 0x0080_0000;
    let mut ok = true;
    let mut n: u64 = 0;
    let mut i: usize = 0;
    while i < p.funs.len()
        invariant
            cap == 0x0080_0000,
            i <= p.funs@.len(),
            ok == forall|k: int| 0 <= k < i ==> {
                &&& (#[trigger] p.funs@[k]).parameters@.len() < 0x0800_0000
                &&& lets_nonempty(p.funs@[k].body)
                &&& generable(p.funs@[k].body)
            },
            n == capped(funs_anns(p.funs@.subrange(0, i as int)).len() as int, cap),
        decreases p.funs@.len() - i,
    {
        proof { assert(p.funs@.subrange(0, i + 1).drop_last() =~= p.funs@.subrange(0, i as int)); }
        let f = &p.funs[i];
        let (okb, nb) = exp_ready(&f.body, cap);
        ok = ok && okb && f.parameters.len() < 0x0800_0000;
        n = add_capped(add_capped(n, nb, cap), 1, cap);
        i = i + 1;
    }
    proof { assert(p.funs@.subrange(0, p.funs@.len() as int) =~= p.funs@); }
    let (okm, nm) = exp_ready(&p.main, cap);
    let total = add_capped(add_capped(n, nm, cap), 1, cap);
    ok && okm && total < cap
}

/* The passes, as relations between their input and output */

pub open spec fn tag_rel<A>(p: SurfProg<A>, t: SurfProg<u32>) -> bool {
    &&& prog_same_shape(p, t)
    &&& prog_anns(t).len() == prog_anns(p).len()
    &&& consecutive(prog_anns(t), 0)
}

pub open spec fn seq_rel(t: SurfProg<u32>, s: SeqProg<()>) -> bool {
    &&& s.funs@.len() == t.funs@.len()
    &&& forall|k: int| 0 <= k < t.funs@.len() ==> {
        &&& (#[trigger] s.funs@[k]).name@ == t.funs@[k].name@
        &&& s.funs@[k].parameters@ == t.funs@[k].parameters@
        &&& sequentialized(t.funs@[k].body, s.funs@[k].body)
    }
    &&& sequentialized(t.main, s.main)
}

pub open spec fn retag_rel(s: SeqProg<()>, s2: SeqProg<u32>) -> bool {
    &&& sprog_same_shape(s, s2)
    &&& sprog_anns(s2).len() == sprog_anns(s).len()
    &&& consecutive(sprog_anns(s2), 0)
}

pub open spec fn uniq_rel(s2: SeqProg<u32>, s3: SeqProg<u32>) -> bool {
    &&& s3.funs@.len() == s2.funs@.len()
    &&& forall|k: int| 0 <= k < s2.funs@.len() ==> {
        &&& (#[trigger] s3.funs@[k]).name@ == s2.funs@[k].name@
        &&& s3.funs@[k].parameters@ == s2.funs@[k].parameters@
        &&& s3.funs@[k].ann == s2.funs@[k].ann
        &&& uniquified(s2.funs@[k].body, Seq::empty(), s3.funs@[k].body)
    }
    &&& uniquified(s2.main, Seq::empty(), s3.main)
    &&& s3.ann == s2.ann
}

pub open spec fn live_rel(s3: SeqProg<u32>, s4: Prog<SeqExp<VecSet<String>>, u32>) -> bool {
    &&& s4.funs@.len() == s3.funs@.len()
    &&& forall|k: int| 0 <= k < s3.funs@.len() ==> {
        &&& (#[trigger] s4.funs@[k]).name@ == s3.funs@[k].name@
        &&& s4.funs@[k].parameters@ == s3.funs@[k].parameters@
        &&& s4.funs@[k].ann == s3.funs@[k].ann
        &&& live_annotated(s3.funs@[k].body, views(s3.funs@[k].parameters@).to_set(), Set::empty(), s4.funs@[k].body)
    }
    &&& live_annotated(s3.main, Set::empty(), Set::empty(), s4.main)
    &&& s4.ann == s3.ann
}

pub open spec fn pair_rel(s4: Prog<SeqExp<VecSet<String>>, u32>, q: Prog<SeqExp<(VecSet<String>, u32)>, u32>) -> bool {
    &&& sprog_same_shape(s4, q)
    &&& paired(bodies_anns(q.funs@) + seq_anns(q.main), bodies_anns(s4.funs@) + seq_anns(s4.main), 0)
    &&& forall|k: int| 0 <= k < s4.funs@.len() ==> (#[trigger] q.funs@[k]).ann == s4.funs@[k].ann
    &&& forall|k: int| 0 <= k < s4.funs@.len() ==> same_views(seq_anns((#[trigger] q.funs@[k]).body), seq_anns(s4.funs@[k].body))
    &&& same_views(seq_anns(q.main), seq_anns(s4.main))
    &&& q.ann == s4.ann
}

/// `q` is what the passes before code generation make of `p`: numbering,
/// sequentialization, renumbering, renaming, liveness and tagging.
pub open spec fn lowered<A>(p: SurfProg<A>, q: Prog<SeqExp<(VecSet<String>, u32)>, u32>) -> bool {
    exists|t: SurfProg<u32>, s1: SeqProg<()>, s2: SeqProg<u32>, s3: SeqProg<u32>, s4: Prog<SeqExp<VecSet<String>>, u32>|
        tag_rel(p, t) && seq_rel(t, s1) && retag_rel(s1, s2) && uniq_rel(s2, s3) && live_rel(s3, s4) && pair_rel(s4, q)
}

/// `code` is the code of every function of `q`, in order, then of `main`.
pub open spec fn prog_code(q: Prog<SeqExp<(VecSet<String>, u32)>, u32>, code: Seq<Seq<char>>) -> bool {
    exists|codes: Seq<Seq<Seq<char>>>, main_code: Seq<Seq<char>>| {
        &&& codes.len() == q.funs@.len()
        &&& forall|k: int| 0 <= k < codes.len() ==>
            fun_has_code(q.funs@[k].parameters@, q.funs@[k].body, q.funs@[k].name@, #[trigger] codes[k])
        &&& fun_has_code(Seq::empty(), q.main, "start_here"@, main_code)
        &&& code == concat_codes(codes) + main_code
    }
}

/* Compiling a program */

/// A body that went through liveness and tagging is ready for the code
/// generator.
proof fn lemma_fun_ready(params: Seq<String>, pset: Set<Seq<char>>, b3: SeqExp<u32>, b4: SeqExp<VecSet<String>>,
    qb: SeqExp<(VecSet<String>, u32)>)
    requires
        params.len() < 0x0800_0000,
        seq_size(b3) < 0x0200_0000,
        live_annotated(b3, pset, Set::empty(), b4),
        seq_same_shape(b4, qb),
        same_views(seq_anns(qb), seq_anns(b4)),
        scoped(qb, views(params).to_set()),
        stackless(qb),
    ensures
        fun_compilable(params, qb),
{
    lemma_anns_within(b3, pset, Set::empty(), b4);
    lemma_same_shape_size(b3, b4);
    lemma_same_shape_size(b4, qb);
    lemma_same_shape_vars(b3, b4);
    lemma_same_shape_vars(b4, qb);
    assert forall|x: Seq<char>| anns_union(seq_anns(qb)).contains(x) implies reads(qb).union(let_vars(qb)).contains(x) by {
        let i = choose|i: int| 0 <= i < seq_anns(qb).len() && (#[trigger] seq_anns(qb)[i]).0@.contains(x);
        assert(seq_anns(qb)[i].0@ == seq_anns(b4)[i]@);
        assert(seq_anns(b4)[i]@.subset_of(within(b3, Set::empty())));
    }
}

/// Renumbering, renaming and liveness keep the sizes of the bodies.
proof fn lemma_chain_sizes(s1: SeqProg<()>, s2: SeqProg<u32>, s3: SeqProg<u32>, s4: Prog<SeqExp<VecSet<String>>, u32>)
    requires
        retag_rel(s1, s2),
        uniq_rel(s2, s3),
        live_rel(s3, s4),
    ensures
        forall|k: int| 0 <= k < s1.funs@.len() ==> seq_size((#[trigger] s3.funs@[k]).body) == seq_size(s1.funs@[k].body),
        seq_size(s3.main) == seq_size(s1.main),
        bodies_size(s4.funs@) == bodies_size(s1.funs@),
        seq_size(s4.main) == seq_size(s1.main),
{
    assert forall|k: int| 0 <= k < s1.funs@.len() implies seq_size((#[trigger] s3.funs@[k]).body) == seq_size(s1.funs@[k].body)
        && seq_size(s4.funs@[k].body) == seq_size(s1.funs@[k].body) by {
        assert(crate::syntax::sfun_same_shape(s1.funs@[k], s2.funs@[k]));
        lemma_same_shape_size(s1.funs@[k].body, s2.funs@[k].body);
        lemma_uniquified_size(s2.funs@[k].body, Seq::empty(), s3.funs@[k].body);
        lemma_same_shape_size(s3.funs@[k].body, s4.funs@[k].body);
    }
    assert forall|k: int| 0 <= k < s4.funs@.len() implies seq_size(#[trigger] s4.funs@[k].body) == seq_size(s1.funs@[k].body) by {
        assert(seq_size(s3.funs@[k].body) == seq_size(s1.funs@[k].body));
    }
    lemma_bodies_size_eq(s4.funs@, s1.funs@);
    lemma_same_shape_size(s1.main, s2.main);
    lemma_uniquified_size(s2.main, Seq::empty(), s3.main);
    lemma_same_shape_size(s3.main, s4.main);
}

/// Compiles a checked program to the text of an assembly file: the code of
/// each function, then of the main expression, between a fixed header and
/// the error handlers. A program that the checker rejects gives its error.
/// Register allocation picks at random among candidates, so the text may
/// differ from run to run; every outcome places variables properly.
pub fn compile_to_string(p: &SurfProg<Span1>) -> (r: Result<String, CompileErr<Span1>>)
    requires
        check_prog_spec(*p) is Ok ==> compile_ready(*p),
    ensures
        r is Ok <==> check_prog_spec(*p) is Ok,
        r matches Err(e) ==> check_prog_spec(*p) == Err::<(), ErrView<Span1>>(e@),
        r matches Ok(s) ==> exists|q: Prog<SeqExp<(VecSet<String>, u32)>, u32>, code: Seq<Seq<char>>|
            lowered(*p, q) && prog_code(q, code) && s@ == asm_header() + joined(code) + asm_footer(),
{
    match check_prog(p) {
        Err(e) => {
            return Err(e);
        },
        Ok(()) => {},
    }
    let t = tag_prog(p);
    proof {
        assert forall|k: int| 0 <= k < t.funs@.len() implies lets_nonempty(#[trigger] t.funs@[k].body) by {
            assert(crate::syntax::fun_same_shape(p.funs@[k], t.funs@[k]));
            lemma_same_shape_lets(p.funs@[k].body, t.funs@[k].body);
        }
        lemma_same_shape_lets(p.main, t.main);
    }
    let s1 = seq_prog(&t);
    proof { lemma_seq_prog_size(t, s1); }
    let s2 = tag_sprog(&s1);
    let s3 = uniquify_names(&s2);
    let s4 = liveness_p(&s3);
    proof {
        lemma_chain_sizes(s1, s2, s3, s4);
        lemma_bodies_anns_le(s4.funs@);
        lemma_anns_le_size(s4.main);
    }
    let q = add_tag_sprog(&s4);
    proof {
        assert(tag_rel(*p, t));
        assert(seq_rel(t, s1));
        assert(retag_rel(s1, s2));
        assert(uniq_rel(s2, s3));
        assert(live_rel(s3, s4));
        assert(pair_rel(s4, q));
        assert(lowered(*p, q));
        lemma_lowered_scoped(*p, t, s1, s2, s3, s4, q);
    }
    let mut is: Vec<Instr> = Vec::new();
    let ghost mut codes: Seq<Seq<Seq<char>>> = Seq::empty();
    let mut k: usize = 0;
    while k < q.funs.len()
        invariant
            k <= q.funs@.len(),
            q.funs@.len() == s4.funs@.len(),
            q.funs@.len() == s1.funs@.len(),
            codes.len() == k,
            forall|j: int| 0 <= j < k ==>
                fun_has_code(q.funs@[j].parameters@, q.funs@[j].body, q.funs@[j].name@, #[trigger] codes[j]),
            lines(is@) == concat_codes(codes),
            compile_ready(*p),
            tag_rel(*p, t),
            seq_rel(t, s1),
            retag_rel(s1, s2),
            uniq_rel(s2, s3),
            live_rel(s3, s4),
            pair_rel(s4, q),
            bodies_size(s1.funs@) <= 4 * prog_anns(t).len(),
            forall|j: int| 0 <= j < s1.funs@.len() ==> seq_size((#[trigger] s3.funs@[j]).body) == seq_size(s1.funs@[j].body),
            forall|j: int| 0 <= j < q.funs@.len() ==>
                scoped((#[trigger] q.funs@[j]).body, views(q.funs@[j].parameters@).to_set()),
            forall|j: int| 0 <= j < q.funs@.len() ==> stackless((#[trigger] q.funs@[j]).body),
        decreases q.funs@.len() - k,
    {
        let f = &q.funs[k];
        proof {
            let j = k as int;
            assert(crate::syntax::sfun_same_shape(s4.funs@[j], q.funs@[j]));
            assert(crate::syntax::sfun_same_shape(s1.funs@[j], s2.funs@[j]));
            assert(crate::syntax::fun_same_shape(p.funs@[j], t.funs@[j]));
            assert(p.funs@[j].parameters@.len() < 0x0800_0000);
            lemma_body_le_bodies(s1.funs@, j);
            lemma_fun_ready(f.parameters@, views(s3.funs@[j].parameters@).to_set(), s3.funs@[j].body, s4.funs@[j].body, f.body);
        }
        let code = compile_fun(&f.name, &f.parameters, &f.body);
        let ghost before = codes;
        append_all(&mut is, code);
        proof {
            codes = codes.push(lines(code@));
            assert(codes.drop_last() =~= before);
            assert(codes[k as int] == lines(code@));
        }
        k = k + 1;
    }
    proof {
        assert(views(Seq::<String>::empty()).to_set() =~= Set::empty());
        lemma_fun_ready(Seq::empty(), Set::empty(), s3.main, s4.main, q.main);
    }
    let main_code = compile_main(&q.main);
    append_all(&mut is, main_code);
    let text = crate::assembly::instrs_to_string(is.as_slice());
    proof {
        lemma_instrs_text(is@);
        assert(prog_code(q, lines(is@)));
    }
    let mut out = String::from_str("section .text\n        global start_here\n        extern snake_error, print_snake_val\n");
    out.append(text.as_str());
    out.append("\n\novfl_error:\n        mov rdi, 0\n        call snake_error\n\narith_error:\n        mov rdi, 1\n        call snake_error\n\ncmp_error:\n        mov rdi, 2\n        call snake_error\n\nlogic_error:\n        mov rdi, 3\n        call snake_error\n\ncond_error:\n        mov rdi, 4\n        call snake_error\n");
    Ok(out)
}

} // verus!
