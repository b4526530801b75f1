use snake::assembly::{
    arg32_to_string, arg64_to_string, bin_args_to_string, imm32_to_string, instr_to_string, instrs_to_string,
    loc_to_string, mem_ref_to_string, mov_args_to_string, reg32_to_string, reg_to_string, Arg32, Arg64, BinArgs,
    Instr, Loc, MemRef, MovArgs, Reg, Reg32,
};

#[test]
fn registers_print_by_name() {
    assert_eq!(reg_to_string(Reg::Rax), "rax");
    assert_eq!(reg_to_string(Reg::R15), "r15");
    assert_eq!(reg_to_string(Reg::Rsp), "rsp");
}

#[test]
fn immediates_print_in_decimal() {
    assert_eq!(imm32_to_string(-42), "-42");
    assert_eq!(imm32_to_string(0), "0");
    assert_eq!(imm32_to_string(i32::MIN), "-2147483648");
}

#[test]
fn memory_references_show_signed_offsets() {
    assert_eq!(mem_ref_to_string(MemRef { reg: Reg::Rbp, offset: 0 }), "QWORD [rbp]");
    assert_eq!(mem_ref_to_string(MemRef { reg: Reg::Rbp, offset: -16 }), "QWORD [rbp-16]");
    assert_eq!(mem_ref_to_string(MemRef { reg: Reg::Rsp, offset: 40 }), "QWORD [rsp+40]");
}

#[test]
fn arguments_print_in_their_forms() {
    assert_eq!(reg32_to_string(Reg32::Imm(7)), "7");
    assert_eq!(reg32_to_string(Reg32::Reg(Reg::Rcx)), "rcx");
    assert_eq!(arg32_to_string(Arg32::Unsigned(1)), "0x00000001");
    assert_eq!(arg32_to_string(Arg32::Signed(-8)), "-8");
    assert_eq!(arg64_to_string(Arg64::Unsigned(0x7FFF_FFFF_FFFF_FFFF)), "0x7fffffffffffffff");
    assert_eq!(arg64_to_string(Arg64::Signed(i64::MIN)), "-9223372036854775808");
    assert_eq!(arg64_to_string(Arg64::Mem(MemRef { reg: Reg::Rbp, offset: 8 })), "QWORD [rbp+8]");
    assert_eq!(loc_to_string(Loc::Reg(Reg::R12)), "r12");
}

#[test]
fn operand_pairs_are_comma_separated() {
    assert_eq!(mov_args_to_string(MovArgs::ToReg(Reg::Rax, Arg64::Signed(2))), "rax, 2");
    assert_eq!(
        mov_args_to_string(MovArgs::ToMem(MemRef { reg: Reg::Rbp, offset: -8 }, Reg32::Reg(Reg::Rax))),
        "QWORD [rbp-8], rax"
    );
    assert_eq!(bin_args_to_string(BinArgs::ToReg(Reg::Rsp, Arg32::Signed(8))), "rsp, 8");
}

#[test]
fn instructions_are_indented_and_labels_are_not() {
    assert_eq!(instr_to_string(&Instr::Ret), "        ret");
    assert_eq!(instr_to_string(&Instr::Label(String::from("start_here"))), "start_here:");
    assert_eq!(instr_to_string(&Instr::Jo(String::from("ovfl_error"))), "        jo ovfl_error");
    assert_eq!(instr_to_string(&Instr::Push(Arg32::Reg(Reg::Rbx))), "        push rbx");
    assert_eq!(instr_to_string(&Instr::Pop(Loc::Mem(MemRef { reg: Reg::Rbp, offset: 40 }))), "        pop QWORD [rbp+40]");
}

#[test]
fn instruction_lists_end_every_line() {
    let is = vec![Instr::Label(String::from("f")), Instr::Ret];
    assert_eq!(instrs_to_string(&is), "f:\n        ret\n");
    assert_eq!(instrs_to_string(&[]), "");
}
