use pijama::assembly::assembler::{assemble, AssemblerError};
use pijama::assembly::mod_rm::ModRmBuilder;
use pijama::assembly::portable::RegisterGenerator;
use pijama::assembly::register::Register;
use pijama::assembly::rex::RexBuilder;
use pijama::assembly::sib::{Scale, SibBuilder};
use pijama::assembly::{Address, Instruction, InstructionKind, Instructions};

fn one(kind: InstructionKind<Register>) -> Vec<u8> {
    let mut ins: Instructions<Register> = Instructions::new();
    ins.add_instruction(Instruction { label: None, kind });
    let mut buf = Vec::new();
    assemble(ins, &mut buf).unwrap();
    buf
}

#[test]
fn rex_byte_values() {
    let w = RexBuilder::new().set_w(true).set_r(false).set_x(false).set_b(false).finish();
    assert_eq!(w, 0x48);
    let all = RexBuilder::new().set_w(true).set_r(true).set_x(true).set_b(true).finish();
    assert_eq!(all, 0x4F);
    let none = RexBuilder::new().set_w(false).set_r(false).set_x(false).set_b(false).finish();
    assert_eq!(none, 0x40);
}

#[test]
fn modrm_byte_values() {
    let direct = ModRmBuilder::new().direct().reg(7).rm(0).build();
    assert_eq!(direct, 0xF8);
    let disp = ModRmBuilder::new().displacement().reg(0).rm(3).build();
    assert_eq!(disp, 0x83);
    let relative = ModRmBuilder::new().relative().reg(2).build();
    assert_eq!(relative, 0x15);
    let indirect = ModRmBuilder::new().indirect().reg(2).rm(1).build();
    assert_eq!(indirect, 0x11);
}

#[test]
fn sib_byte_values() {
    let sp = SibBuilder::new().scale(Scale::One).index(Register::Sp).base(Register::Sp).build();
    assert_eq!(sp, 0x24);
    let scaled = SibBuilder::new().scale(Scale::Eight).index(Register::Cx).base(Register::Dx).build();
    assert_eq!(scaled, 0b11_001_010);
}

#[test]
fn register_codes() {
    assert_eq!(Register::Ax.encode(), 0);
    assert_eq!(Register::Di.encode(), 7);
    assert_eq!(Register::R8.encode(), 0);
    assert_eq!(Register::R15.encode(), 7);
    assert!(!Register::Sp.needs_extension());
    assert!(Register::R12.needs_extension());
}

#[test]
fn portable_registers_are_fresh() {
    let mut gen = RegisterGenerator::new();
    let a = gen.generate();
    let b = gen.generate();
    assert_ne!(a, b);
    assert_eq!(a.0, 0);
    assert_eq!(b.0, 1);
}

#[test]
fn encode_mov() {
    assert_eq!(one(InstructionKind::Mov { src: Register::Di, dst: Register::Ax }),
        vec![0x48, 0x89, 0xF8]);
    assert_eq!(one(InstructionKind::Mov { src: Register::R8, dst: Register::Ax }),
        vec![0x4C, 0x89, 0xC0]);
}

#[test]
fn encode_load_imm_forms() {
    // A zero immediate takes the xor shortcut.
    assert_eq!(one(InstructionKind::LoadImm { src: 0, dst: Register::Cx }), vec![0x31, 0xC9]);
    assert_eq!(one(InstructionKind::LoadImm { src: 0, dst: Register::R9 }),
        vec![0x45, 0x31, 0xC9]);
    // A value that fits 32 bits uses the short form without REX.W.
    assert_eq!(one(InstructionKind::LoadImm { src: 10, dst: Register::Ax }),
        vec![0xB8, 0x0A, 0x00, 0x00, 0x00]);
    assert_eq!(one(InstructionKind::LoadImm { src: -1, dst: Register::Ax }),
        vec![0xB8, 0xFF, 0xFF, 0xFF, 0xFF]);
    // A full 64-bit value keeps REX.W and eight bytes.
    assert_eq!(one(InstructionKind::LoadImm { src: 0x1_0000_0000, dst: Register::Ax }),
        vec![0x48, 0xB8, 0x00, 0x00, 0x00, 0x00, 0x01, 0x00, 0x00, 0x00]);
}

#[test]
fn encode_push_pop() {
    assert_eq!(one(InstructionKind::Push(Register::Bx)), vec![0x53]);
    assert_eq!(one(InstructionKind::Push(Register::R8)), vec![0x41, 0x50]);
    assert_eq!(one(InstructionKind::Pop(Register::Bx)), vec![0x5B]);
    assert_eq!(one(InstructionKind::Pop(Register::R15)), vec![0x41, 0x5F]);
}

#[test]
fn encode_add() {
    assert_eq!(one(InstructionKind::Add { src: Register::Cx, dst: Register::Ax }),
        vec![0x48, 0x01, 0xC8]);
}

#[test]
fn encode_add_imm_forms() {
    // Small values use the 8-bit short form.
    assert_eq!(one(InstructionKind::AddImm { src: 5, dst: Register::Cx }),
        vec![0x48, 0x83, 0xC1, 0x05]);
    assert_eq!(one(InstructionKind::AddImm { src: -1, dst: Register::Dx }),
        vec![0x48, 0x83, 0xC2, 0xFF]);
    // rax has a fast path for the 32-bit form.
    assert_eq!(one(InstructionKind::AddImm { src: 300, dst: Register::Ax }),
        vec![0x48, 0x05, 0x2C, 0x01, 0x00, 0x00]);
    assert_eq!(one(InstructionKind::AddImm { src: 300, dst: Register::Cx }),
        vec![0x48, 0x81, 0xC1, 0x2C, 0x01, 0x00, 0x00]);
}

#[test]
fn encode_set_if_less_no_alias() {
    // dst aliases neither source: xor, cmp, setl.
    assert_eq!(one(InstructionKind::SetIfLess {
        src1: Register::Si,
        src2: Register::Di,
        dst: Register::Dx,
    }), vec![0x31, 0xD2, 0x48, 0x39, 0xFE, 0x0F, 0x9C, 0xC2]);
}

#[test]
fn encode_set_if_less_aliased() {
    // dst aliases a source: cmp, flag-preserving mov dst,0, setl.
    assert_eq!(one(InstructionKind::SetIfLess {
        src1: Register::Ax,
        src2: Register::Cx,
        dst: Register::Ax,
    }), vec![0x48, 0x39, 0xC8, 0xB8, 0x00, 0x00, 0x00, 0x00, 0x0F, 0x9C, 0xC0]);
}

#[test]
fn encode_setl_rex_for_high_codes() {
    // setl needs a REX prefix for rsi/rdi/rbp/rsp destinations.
    assert_eq!(one(InstructionKind::SetIfLess {
        src1: Register::Ax,
        src2: Register::Cx,
        dst: Register::Si,
    }), vec![0x31, 0xF6, 0x48, 0x39, 0xC8, 0x40, 0x0F, 0x9C, 0xC6]);
}

#[test]
fn encode_return_and_call() {
    assert_eq!(one(InstructionKind::Return), vec![0xC3]);
    assert_eq!(one(InstructionKind::Call(Register::Cx)), vec![0xFF, 0xD1]);
    assert_eq!(one(InstructionKind::Call(Register::R10)), vec![0x41, 0xFF, 0xD2]);
}

#[test]
fn encode_load_addr_and_store() {
    assert_eq!(one(InstructionKind::LoadAddr {
        src: Address { base: Register::Bx, offset: 0x10 },
        dst: Register::Ax,
    }), vec![0x48, 0x8B, 0x83, 0x10, 0x00, 0x00, 0x00]);
    // rsp as the base forces an SIB byte.
    assert_eq!(one(InstructionKind::LoadAddr {
        src: Address { base: Register::Sp, offset: 8 },
        dst: Register::Ax,
    }), vec![0x48, 0x8B, 0x84, 0x24, 0x08, 0x00, 0x00, 0x00]);
    assert_eq!(one(InstructionKind::Store {
        src: Register::Ax,
        dst: Address { base: Register::Sp, offset: 8 },
    }), vec![0x48, 0x89, 0xA0, 0x08, 0x00, 0x00, 0x00]);
}

#[test]
fn patch_resolves_backward_jump() {
    let mut ins: Instructions<Register> = Instructions::new();
    let l = ins.add_label();
    ins.add_instruction(Instruction { label: Some(l), kind: InstructionKind::Return });
    ins.add_instruction(Instruction { label: None, kind: InstructionKind::Jump(l) });
    let mut buf = Vec::new();
    assemble(ins, &mut buf).unwrap();
    // label offset 0, slot at 2..6: 0 - 6 == -6, little-endian.
    assert_eq!(buf, vec![0xC3, 0xE9, 0xFA, 0xFF, 0xFF, 0xFF]);
}

#[test]
fn patch_resolves_forward_jump() {
    let mut ins: Instructions<Register> = Instructions::new();
    let l = ins.add_label();
    ins.add_instruction(Instruction { label: None, kind: InstructionKind::Jump(l) });
    ins.add_instruction(Instruction { label: Some(l), kind: InstructionKind::Return });
    let mut buf = Vec::new();
    assemble(ins, &mut buf).unwrap();
    // label offset 5, slot at 1..5: 5 - 5 == 0.
    assert_eq!(buf, vec![0xE9, 0x00, 0x00, 0x00, 0x00, 0xC3]);
}

#[test]
fn patch_resolves_jump_if_zero() {
    let mut ins: Instructions<Register> = Instructions::new();
    let l = ins.add_label();
    ins.add_instruction(Instruction {
        label: None,
        kind: InstructionKind::JumpIfZero { src: Register::Cx, target: l },
    });
    ins.add_instruction(Instruction { label: Some(l), kind: InstructionKind::Return });
    let mut buf = Vec::new();
    assemble(ins, &mut buf).unwrap();
    assert_eq!(buf, vec![
        0x48, 0x81, 0xF9, 0x00, 0x00, 0x00, 0x00, // cmp rcx, 0
        0x0F, 0x84, 0x00, 0x00, 0x00, 0x00, // je, displacement 0
        0xC3,
    ]);
}

#[test]
fn jump_if_zero_rax_fast_path() {
    let mut ins: Instructions<Register> = Instructions::new();
    let l = ins.add_label();
    ins.add_instruction(Instruction {
        label: None,
        kind: InstructionKind::JumpIfZero { src: Register::Ax, target: l },
    });
    ins.add_instruction(Instruction { label: Some(l), kind: InstructionKind::Return });
    let mut buf = Vec::new();
    assemble(ins, &mut buf).unwrap();
    assert_eq!(buf, vec![
        0x48, 0x3D, 0x00, 0x00, 0x00, 0x00, // cmp rax, 0
        0x0F, 0x84, 0x00, 0x00, 0x00, 0x00, // je, displacement 0
        0xC3,
    ]);
}

#[test]
fn missing_label_is_reported() {
    let mut ins: Instructions<Register> = Instructions::new();
    let l = ins.add_label();
    ins.add_instruction(Instruction { label: None, kind: InstructionKind::Jump(l) });
    let mut buf = Vec::new();
    let r = assemble(ins, &mut buf);
    assert_eq!(r, Err(AssemblerError::MissingLabelLocation(l)));
}

#[test]
fn dead_jump_to_next_label_becomes_nop() {
    let mut ins: Instructions<Register> = Instructions::new();
    let l = ins.add_label();
    ins.add_instruction(Instruction { label: None, kind: InstructionKind::Jump(l) });
    ins.add_instruction(Instruction { label: Some(l), kind: InstructionKind::Return });
    ins.optimize();
    assert!(matches!(ins.at(0).kind, InstructionKind::Nop));
    assert!(matches!(ins.at(1).kind, InstructionKind::Return));
    let mut buf = Vec::new();
    assemble(ins, &mut buf).unwrap();
    assert_eq!(buf, vec![0xC3]);
}

#[test]
fn optimize_twice_changes_nothing_more() {
    let mut ins: Instructions<Register> = Instructions::new();
    let l = ins.add_label();
    let l2 = ins.add_label();
    ins.add_instruction(Instruction { label: None, kind: InstructionKind::Jump(l) });
    ins.add_instruction(Instruction { label: Some(l), kind: InstructionKind::Jump(l2) });
    ins.add_instruction(Instruction { label: Some(l2), kind: InstructionKind::Return });
    ins.optimize();
    let after_once: Vec<Instruction<Register>> = vec![*ins.at(0), *ins.at(1), *ins.at(2)];
    ins.optimize();
    let after_twice: Vec<Instruction<Register>> = vec![*ins.at(0), *ins.at(1), *ins.at(2)];
    assert_eq!(after_once, after_twice);
    assert!(matches!(after_once[0].kind, InstructionKind::Nop));
    assert!(matches!(after_once[1].kind, InstructionKind::Nop));
}

#[test]
fn jump_over_an_instruction_is_kept() {
    let mut ins: Instructions<Register> = Instructions::new();
    let l = ins.add_label();
    ins.add_instruction(Instruction { label: None, kind: InstructionKind::Jump(l) });
    ins.add_instruction(Instruction { label: None, kind: InstructionKind::Return });
    ins.add_instruction(Instruction { label: Some(l), kind: InstructionKind::Return });
    ins.optimize();
    assert!(matches!(ins.at(0).kind, InstructionKind::Jump(_)));
}

#[test]
fn get_mut_edits_in_place() {
    let mut ins: Instructions<Register> = Instructions::new();
    ins.add_instruction(Instruction { label: None, kind: InstructionKind::Return });
    let slot = ins.get_mut(0);
    slot.kind = InstructionKind::Push(Register::Ax);
    assert!(matches!(ins.at(0).kind, InstructionKind::Push(Register::Ax)));
    assert_eq!(ins.len(), 1);
}
