use pijama::dce::dead_code_elimination;
use pijama::mir::{
    BasicBlock, BasicBlockId, BinOp, Function, Literal, Operand, Rvalue, Statement, Terminator,
    Ty,
};
use pijama::ssa::ssa_transform;

fn const_int(data: u32) -> Operand {
    Operand::Constant(Literal { data, ty: Ty::Int })
}

/// A diamond with a local assigned in both branches and read at the join.
fn diamond_mir() -> Function {
    let mut builder = Function::builder(1);
    let output = builder.add_local(Ty::Int);
    let arg = builder.add_local(Ty::Int);
    let bb0 = builder.add_block();
    let bb1 = builder.add_block();
    let bb2 = builder.add_block();
    let bb3 = builder.add_block();
    *builder.block_mut(bb0) = Some(BasicBlock {
        statements: vec![],
        terminator: Terminator::JumpIf { cond: Operand::Local(arg), then_bb: bb1, else_bb: bb2 },
    });
    *builder.block_mut(bb1) = Some(BasicBlock {
        statements: vec![Statement::Assign { lhs: output, rhs: Rvalue::Use(const_int(1)) }],
        terminator: Terminator::Jump(bb3),
    });
    *builder.block_mut(bb2) = Some(BasicBlock {
        statements: vec![Statement::Assign { lhs: output, rhs: Rvalue::Use(const_int(2)) }],
        terminator: Terminator::Jump(bb3),
    });
    *builder.block_mut(bb3) = Some(BasicBlock {
        statements: vec![],
        terminator: Terminator::Return(output),
    });
    builder.finish()
}

#[test]
fn phi_is_placed_at_the_join() {
    let mut f = diamond_mir();
    ssa_transform(&mut f);
    let join = f.blocks.get(BasicBlockId(3)).unwrap();
    assert!(!join.statements.is_empty());
    match &join.statements[0] {
        Statement::Assign { lhs, rhs: Rvalue::Phi(entries) } => {
            // One entry per predecessor, each renamed to the branch's value,
            // and the two incoming names differ.
            assert_eq!(entries.len(), 2);
            let preds: Vec<BasicBlockId> = entries.iter().map(|e| e.0).collect();
            assert!(preds.contains(&BasicBlockId(1)));
            assert!(preds.contains(&BasicBlockId(2)));
            assert_ne!(entries[0].1, entries[1].1);
            // The φ coins a fresh name of its own.
            assert!(lhs.0 >= 2);
            for e in entries.iter() {
                assert!(e.1.0 >= 2);
            }
        }
        other => panic!("expected a phi at the join, got {:?}", other),
    }
    // The return reads the φ's value.
    match join.terminator {
        Terminator::Return(l) => {
            match &join.statements[0] {
                Statement::Assign { lhs, .. } => assert_eq!(l, *lhs),
                _ => unreachable!(),
            }
        }
        _ => panic!("the join must still return"),
    }
}

#[test]
fn ssa_gives_each_name_one_assignment() {
    let mut f = diamond_mir();
    ssa_transform(&mut f);
    let mut seen: Vec<usize> = Vec::new();
    for b in 0..f.blocks.len() {
        let blk = f.blocks.get(BasicBlockId(b)).unwrap();
        for s in blk.statements.iter() {
            if let Statement::Assign { lhs, .. } = s {
                assert!(!seen.contains(&lhs.0), "local {} assigned twice", lhs.0);
                seen.push(lhs.0);
            }
        }
    }
}

#[test]
fn dead_assignments_become_nops() {
    // t = 0; u = t + 1; ret = 5; return ret.
    let mut builder = Function::builder(0);
    let output = builder.add_local(Ty::Int);
    let t = builder.add_local(Ty::Int);
    let u = builder.add_local(Ty::Int);
    let bb0 = builder.add_block();
    *builder.block_mut(bb0) = Some(BasicBlock {
        statements: vec![
            Statement::Assign { lhs: t, rhs: Rvalue::Use(const_int(0)) },
            Statement::Assign {
                lhs: u,
                rhs: Rvalue::BinaryOp { op: BinOp::Add, lhs: Operand::Local(t), rhs: const_int(1) },
            },
            Statement::Assign { lhs: output, rhs: Rvalue::Use(const_int(5)) },
        ],
        terminator: Terminator::Return(output),
    });
    let mut f = builder.finish();
    ssa_transform(&mut f);
    dead_code_elimination(&mut f);
    let blk = f.blocks.get(BasicBlockId(0)).unwrap();
    assert_eq!(blk.statements.len(), 3);
    assert!(matches!(blk.statements[0], Statement::Nop));
    assert!(matches!(blk.statements[1], Statement::Nop));
    assert!(matches!(blk.statements[2], Statement::Assign { .. }));
    match (&blk.statements[2], &blk.terminator) {
        (Statement::Assign { lhs, .. }, Terminator::Return(r)) => assert_eq!(lhs, r),
        _ => panic!("the live assignment must feed the return"),
    }
}

#[test]
fn dce_twice_equals_dce_once() {
    let mut f = diamond_mir();
    ssa_transform(&mut f);
    dead_code_elimination(&mut f);
    let once: Vec<BasicBlock> = (0..f.blocks.len())
        .map(|b| f.blocks.get(BasicBlockId(b)).unwrap().clone())
        .collect();
    dead_code_elimination(&mut f);
    let twice: Vec<BasicBlock> = (0..f.blocks.len())
        .map(|b| f.blocks.get(BasicBlockId(b)).unwrap().clone())
        .collect();
    assert_eq!(once, twice);
}

#[test]
fn dce_keeps_live_chains() {
    // ret = arg + 1; return ret: nothing is dead.
    let mut builder = Function::builder(1);
    let output = builder.add_local(Ty::Int);
    let arg = builder.add_local(Ty::Int);
    let bb0 = builder.add_block();
    *builder.block_mut(bb0) = Some(BasicBlock {
        statements: vec![Statement::Assign {
            lhs: output,
            rhs: Rvalue::BinaryOp { op: BinOp::Add, lhs: Operand::Local(arg), rhs: const_int(1) },
        }],
        terminator: Terminator::Return(output),
    });
    let mut f = builder.finish();
    ssa_transform(&mut f);
    dead_code_elimination(&mut f);
    let blk = f.blocks.get(BasicBlockId(0)).unwrap();
    assert!(matches!(blk.statements[0], Statement::Assign { .. }));
}

#[test]
fn ssa_keeps_the_graph_shape() {
    let before = diamond_mir();
    let mut f = diamond_mir();
    ssa_transform(&mut f);
    assert_eq!(f.blocks.len(), before.blocks.len());
    assert_eq!(f.arity, before.arity);
    assert_eq!(f.entry, before.entry);
    assert_eq!(f.exit, before.exit);
    for b in 0..f.blocks.len() {
        let t1 = &before.blocks.get(BasicBlockId(b)).unwrap().terminator;
        let t2 = &f.blocks.get(BasicBlockId(b)).unwrap().terminator;
        match (t1, t2) {
            (Terminator::Jump(x), Terminator::Jump(y)) => assert_eq!(x, y),
            (
                Terminator::JumpIf { then_bb: a1, else_bb: b1, .. },
                Terminator::JumpIf { then_bb: a2, else_bb: b2, .. },
            ) => {
                assert_eq!(a1, a2);
                assert_eq!(b1, b2);
            }
            (Terminator::Return(_), Terminator::Return(_)) => {}
            _ => panic!("terminator shape changed"),
        }
    }
}

#[test]
fn dce_sweeps_a_double_read() {
    // t = 1; u = t + t; ret = 5; return ret: both reads of t die with u.
    let mut builder = Function::builder(0);
    let output = builder.add_local(Ty::Int);
    let t = builder.add_local(Ty::Int);
    let u = builder.add_local(Ty::Int);
    let bb0 = builder.add_block();
    *builder.block_mut(bb0) = Some(BasicBlock {
        statements: vec![
            Statement::Assign { lhs: t, rhs: Rvalue::Use(const_int(1)) },
            Statement::Assign {
                lhs: u,
                rhs: Rvalue::BinaryOp {
                    op: BinOp::Add,
                    lhs: Operand::Local(t),
                    rhs: Operand::Local(t),
                },
            },
            Statement::Assign { lhs: output, rhs: Rvalue::Use(const_int(5)) },
        ],
        terminator: Terminator::Return(output),
    });
    let mut f = builder.finish();
    ssa_transform(&mut f);
    dead_code_elimination(&mut f);
    let blk = f.blocks.get(BasicBlockId(0)).unwrap();
    assert!(matches!(blk.statements[0], Statement::Nop));
    assert!(matches!(blk.statements[1], Statement::Nop));
    assert!(matches!(blk.statements[2], Statement::Assign { .. }));
}
