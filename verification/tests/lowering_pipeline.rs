use pijama::assembly::assembler::assemble;
use pijama::mir::{
    BasicBlock, BasicBlockId, BinOp, Function, Literal, Operand, Rvalue, Statement, Terminator,
    Ty,
};
use pijama::mir_lowering::lower_function;

fn const_int(data: u32) -> Operand {
    Operand::Constant(Literal { data, ty: Ty::Int })
}

/// ret = arg0; return ret — the identity function.
fn identity_mir() -> Function {
    let mut builder = Function::builder(1);
    let output = builder.add_local(Ty::Int);
    let arg = builder.add_local(Ty::Int);
    let bb0 = builder.add_block();
    *builder.block_mut(bb0) = Some(BasicBlock {
        statements: vec![Statement::Assign { lhs: output, rhs: Rvalue::Use(Operand::Local(arg)) }],
        terminator: Terminator::Return(output),
    });
    builder.finish()
}

/// ret = 10; return — the constant function.
fn start_mir() -> Function {
    let mut builder = Function::builder(0);
    let output = builder.add_local(Ty::Int);
    let bb0 = builder.add_block();
    *builder.block_mut(bb0) = Some(BasicBlock {
        statements: vec![Statement::Assign { lhs: output, rhs: Rvalue::Use(const_int(10)) }],
        terminator: Terminator::Return(output),
    });
    builder.finish()
}

/// The loop that returns 2*n: add 2 for each i < n.
fn duplicate_mir() -> Function {
    let mut builder = Function::builder(1);
    let output = builder.add_local(Ty::Int);
    let arg = builder.add_local(Ty::Int);
    let i = builder.add_local(Ty::Int);
    let cmp = builder.add_local(Ty::Bool);
    let bb0 = builder.add_block();
    let bb1 = builder.add_block();
    let bb2 = builder.add_block();
    let bb3 = builder.add_block();
    *builder.block_mut(bb0) = Some(BasicBlock {
        statements: vec![
            Statement::Assign { lhs: output, rhs: Rvalue::Use(const_int(0)) },
            Statement::Assign { lhs: i, rhs: Rvalue::Use(const_int(0)) },
        ],
        terminator: Terminator::Jump(bb1),
    });
    *builder.block_mut(bb1) = Some(BasicBlock {
        statements: vec![Statement::Assign {
            lhs: cmp,
            rhs: Rvalue::BinaryOp {
                op: BinOp::Lt,
                lhs: Operand::Local(i),
                rhs: Operand::Local(arg),
            },
        }],
        terminator: Terminator::JumpIf { cond: Operand::Local(cmp), then_bb: bb2, else_bb: bb3 },
    });
    *builder.block_mut(bb2) = Some(BasicBlock {
        statements: vec![
            Statement::Assign {
                lhs: output,
                rhs: Rvalue::BinaryOp {
                    op: BinOp::Add,
                    lhs: Operand::Local(output),
                    rhs: const_int(2),
                },
            },
            Statement::Assign {
                lhs: i,
                rhs: Rvalue::BinaryOp { op: BinOp::Add, lhs: Operand::Local(i), rhs: const_int(1) },
            },
        ],
        terminator: Terminator::Jump(bb1),
    });
    *builder.block_mut(bb3) = Some(BasicBlock {
        statements: vec![],
        terminator: Terminator::Return(output),
    });
    builder.finish()
}

#[test]
fn identity_lowers_to_mov_and_ret() {
    let f = identity_mir();
    let mut instructions = lower_function(&f);
    instructions.optimize();
    let mut code = Vec::new();
    assemble(instructions, &mut code).unwrap();
    assert_eq!(code, vec![0x48, 0x89, 0xF8, 0xC3]);
}

#[test]
fn constant_ten_lowers_to_short_mov() {
    let f = start_mir();
    let mut instructions = lower_function(&f);
    instructions.optimize();
    let mut code = Vec::new();
    assemble(instructions, &mut code).unwrap();
    assert_eq!(code, vec![0xB8, 0x0A, 0x00, 0x00, 0x00, 0xC3]);
}

#[test]
fn constant_five_lowers_to_short_mov() {
    let mut builder = Function::builder(0);
    let output = builder.add_local(Ty::Int);
    let bb0 = builder.add_block();
    *builder.block_mut(bb0) = Some(BasicBlock {
        statements: vec![Statement::Assign { lhs: output, rhs: Rvalue::Use(const_int(5)) }],
        terminator: Terminator::Return(output),
    });
    let f = builder.finish();
    let mut instructions = lower_function(&f);
    instructions.optimize();
    let mut code = Vec::new();
    assemble(instructions, &mut code).unwrap();
    assert_eq!(code, vec![0xB8, 0x05, 0x00, 0x00, 0x00, 0xC3]);
}

#[test]
fn duplicate_assembles_as_a_loop() {
    let f = duplicate_mir();
    let mut instructions = lower_function(&f);
    instructions.optimize();
    let mut code = Vec::new();
    assemble(instructions, &mut code).unwrap();
    // Block 0: both zero loads take the xor shortcut (rax, then rsi), and
    // the fall-through jump to the next block was erased by the peephole.
    assert_eq!(&code[0..4], &[0x31, 0xC0, 0x31, 0xF6]);
    // Block 1 compares i < n: xor rdx,rdx; cmp rsi,rdi; setl dl.
    assert_eq!(&code[4..12], &[0x31, 0xD2, 0x48, 0x39, 0xFE, 0x0F, 0x9C, 0xC2]);
    // The stream ends in the function's return.
    assert_eq!(*code.last().unwrap(), 0xC3);
    // The conditional branch tests rdx against zero.
    assert_eq!(&code[12..15], &[0x48, 0x81, 0xFA]);
}

#[test]
fn constant_condition_folds_to_one_jump() {
    // if 1 { ret = 7 } else { ret = 9 }: the taken side is hardwired.
    let mut builder = Function::builder(0);
    let output = builder.add_local(Ty::Int);
    let bb0 = builder.add_block();
    let bb1 = builder.add_block();
    let bb2 = builder.add_block();
    let bb3 = builder.add_block();
    *builder.block_mut(bb0) = Some(BasicBlock {
        statements: vec![],
        terminator: Terminator::JumpIf { cond: const_int(1), then_bb: bb1, else_bb: bb2 },
    });
    *builder.block_mut(bb1) = Some(BasicBlock {
        statements: vec![Statement::Assign { lhs: output, rhs: Rvalue::Use(const_int(7)) }],
        terminator: Terminator::Jump(bb3),
    });
    *builder.block_mut(bb2) = Some(BasicBlock {
        statements: vec![Statement::Assign { lhs: output, rhs: Rvalue::Use(const_int(9)) }],
        terminator: Terminator::Jump(bb3),
    });
    *builder.block_mut(bb3) = Some(BasicBlock {
        statements: vec![],
        terminator: Terminator::Return(output),
    });
    let f = builder.finish();
    let mut instructions = lower_function(&f);
    instructions.optimize();
    let mut code = Vec::new();
    assemble(instructions, &mut code).unwrap();
    // jmp then-block (erased: it is next), mov rax,7, jmp join (over the
    // else block), mov rax,9, ret.
    assert_eq!(code, vec![
        0xB8, 0x07, 0x00, 0x00, 0x00, // mov eax, 7
        0xE9, 0x05, 0x00, 0x00, 0x00, // jmp over the else block
        0xB8, 0x09, 0x00, 0x00, 0x00, // mov eax, 9
        0xC3,
    ]);
}

#[test]
fn constant_compare_is_folded() {
    // ret = (3 < 4); return ret.
    let mut builder = Function::builder(0);
    let output = builder.add_local(Ty::Bool);
    let bb0 = builder.add_block();
    *builder.block_mut(bb0) = Some(BasicBlock {
        statements: vec![Statement::Assign {
            lhs: output,
            rhs: Rvalue::BinaryOp { op: BinOp::Lt, lhs: const_int(3), rhs: const_int(4) },
        }],
        terminator: Terminator::Return(output),
    });
    let f = builder.finish();
    let mut instructions = lower_function(&f);
    instructions.optimize();
    let mut code = Vec::new();
    assemble(instructions, &mut code).unwrap();
    assert_eq!(code, vec![0xB8, 0x01, 0x00, 0x00, 0x00, 0xC3]);
}

#[test]
fn add_register_register_reuses_the_target() {
    // ret = ret + arg: the target aliases the left operand.
    let mut builder = Function::builder(1);
    let output = builder.add_local(Ty::Int);
    let arg = builder.add_local(Ty::Int);
    let bb0 = builder.add_block();
    *builder.block_mut(bb0) = Some(BasicBlock {
        statements: vec![Statement::Assign {
            lhs: output,
            rhs: Rvalue::BinaryOp {
                op: BinOp::Add,
                lhs: Operand::Local(output),
                rhs: Operand::Local(arg),
            },
        }],
        terminator: Terminator::Return(output),
    });
    let f = builder.finish();
    let mut instructions = lower_function(&f);
    instructions.optimize();
    let mut code = Vec::new();
    assemble(instructions, &mut code).unwrap();
    // add rax, rdi; ret.
    assert_eq!(code, vec![0x48, 0x01, 0xF8, 0xC3]);
}

#[test]
fn add_without_alias_moves_first() {
    // ret = arg + arg2: mov then add.
    let mut builder = Function::builder(2);
    let output = builder.add_local(Ty::Int);
    let arg = builder.add_local(Ty::Int);
    let arg2 = builder.add_local(Ty::Int);
    let bb0 = builder.add_block();
    *builder.block_mut(bb0) = Some(BasicBlock {
        statements: vec![Statement::Assign {
            lhs: output,
            rhs: Rvalue::BinaryOp {
                op: BinOp::Add,
                lhs: Operand::Local(arg),
                rhs: Operand::Local(arg2),
            },
        }],
        terminator: Terminator::Return(output),
    });
    let f = builder.finish();
    let mut instructions = lower_function(&f);
    instructions.optimize();
    let mut code = Vec::new();
    assemble(instructions, &mut code).unwrap();
    // mov rax, rdi; add rax, rsi; ret.
    assert_eq!(code, vec![0x48, 0x89, 0xF8, 0x48, 0x01, 0xF0, 0xC3]);
}
