use pijama::dataflow::dataflow;
use pijama::dataflow::dominators::Dominators;
use pijama::dataflow::live_variable::LiveVariable;
use pijama::dataflow::reaching_defs::ReachingDefs;
use pijama::dataflow::Def;
use pijama::dominance_frontiers::dominance_frontiers;
use pijama::dominator_tree::DominatorTreeBuilder;
use pijama::mir::{
    BasicBlock, BasicBlockId, BinOp, Function, Literal, Operand, Rvalue, Statement, Terminator,
    Ty,
};

fn const_int(data: u32) -> Operand {
    Operand::Constant(Literal { data, ty: Ty::Int })
}

/// ret = arg; return ret
fn identity_mir() -> Function {
    let mut builder = Function::builder(1);
    let output = builder.add_local(Ty::Int);
    let arg = builder.add_local(Ty::Int);
    let bb0 = builder.add_block();
    *builder.block_mut(bb0) = Some(BasicBlock {
        statements: vec![Statement::Assign { lhs: output, rhs: Rvalue::Use(Operand::Local(arg)) }],
        terminator: Terminator::Return(output),
    });
    builder.finish()
}

/// A diamond: 0 branches to 1 and 2, both join in 3.
fn diamond_mir() -> Function {
    let mut builder = Function::builder(1);
    let output = builder.add_local(Ty::Int);
    let arg = builder.add_local(Ty::Int);
    let bb0 = builder.add_block();
    let bb1 = builder.add_block();
    let bb2 = builder.add_block();
    let bb3 = builder.add_block();
    *builder.block_mut(bb0) = Some(BasicBlock {
        statements: vec![],
        terminator: Terminator::JumpIf { cond: Operand::Local(arg), then_bb: bb1, else_bb: bb2 },
    });
    *builder.block_mut(bb1) = Some(BasicBlock {
        statements: vec![Statement::Assign { lhs: output, rhs: Rvalue::Use(const_int(1)) }],
        terminator: Terminator::Jump(bb3),
    });
    *builder.block_mut(bb2) = Some(BasicBlock {
        statements: vec![Statement::Assign { lhs: output, rhs: Rvalue::Use(const_int(2)) }],
        terminator: Terminator::Jump(bb3),
    });
    *builder.block_mut(bb3) = Some(BasicBlock {
        statements: vec![],
        terminator: Terminator::Return(output),
    });
    builder.finish()
}

#[test]
fn finish_builds_sorted_adjacency() {
    let f = diamond_mir();
    // 4 real blocks plus the two sentinels.
    assert_eq!(f.preds.len(), 6);
    assert_eq!(f.succs.len(), 6);
    assert_eq!(f.entry, BasicBlockId(4));
    assert_eq!(f.exit, BasicBlockId(5));
    assert_eq!(f.succs.get(BasicBlockId(0)).unwrap().as_slice(),
        &[BasicBlockId(1), BasicBlockId(2)]);
    assert_eq!(f.preds.get(BasicBlockId(3)).unwrap().as_slice(),
        &[BasicBlockId(1), BasicBlockId(2)]);
    assert_eq!(f.preds.get(BasicBlockId(0)).unwrap().as_slice(), &[BasicBlockId(4)]);
    assert_eq!(f.succs.get(BasicBlockId(3)).unwrap().as_slice(), &[BasicBlockId(5)]);
    assert_eq!(f.succs.get(BasicBlockId(4)).unwrap().as_slice(), &[BasicBlockId(0)]);
    assert!(f.succs.get(BasicBlockId(5)).unwrap().is_empty());
}

#[test]
fn dominators_of_a_chain() {
    let mut builder = Function::builder(0);
    let output = builder.add_local(Ty::Int);
    let bb0 = builder.add_block();
    let bb1 = builder.add_block();
    *builder.block_mut(bb0) = Some(BasicBlock {
        statements: vec![Statement::Assign { lhs: output, rhs: Rvalue::Use(const_int(1)) }],
        terminator: Terminator::Jump(bb1),
    });
    *builder.block_mut(bb1) = Some(BasicBlock {
        statements: vec![],
        terminator: Terminator::Return(output),
    });
    let f = builder.finish();
    let outs = Dominators::new(&f).run();
    // Block 1 is dominated by the entry sentinel (2), block 0 and itself.
    let d1 = outs.get(BasicBlockId(1)).unwrap();
    assert!(d1.get(0));
    assert!(d1.get(1));
    assert!(d1.get(2));
    let d0 = outs.get(BasicBlockId(0)).unwrap();
    assert!(d0.get(0));
    assert!(!d0.get(1));
    assert!(d0.get(2));
}

#[test]
fn dominators_of_the_diamond() {
    let f = diamond_mir();
    let outs = Dominators::new(&f).run();
    // Neither branch dominates the join.
    let d3 = outs.get(BasicBlockId(3)).unwrap();
    assert!(d3.get(0));
    assert!(!d3.get(1));
    assert!(!d3.get(2));
    assert!(d3.get(3));
    assert!(d3.get(4));
}

#[test]
fn reaching_defs_kill_earlier_definitions() {
    // ret = 1; ret = 2; return ret — only the second assignment reaches the
    // end, and the dummy for ret is killed.
    let mut builder = Function::builder(0);
    let output = builder.add_local(Ty::Int);
    let bb0 = builder.add_block();
    *builder.block_mut(bb0) = Some(BasicBlock {
        statements: vec![
            Statement::Assign { lhs: output, rhs: Rvalue::Use(const_int(1)) },
            Statement::Assign { lhs: output, rhs: Rvalue::Use(const_int(2)) },
        ],
        terminator: Terminator::Return(output),
    });
    let f = builder.finish();
    let rd = ReachingDefs::new(&f);
    let outs = rd.run();
    let row = outs.get(BasicBlockId(0)).unwrap();
    // Definitions: 0 = Dummy(ret), 1 = first assign, 2 = second assign.
    assert!(!row.get(0));
    assert!(!row.get(1));
    assert!(row.get(2));
}

#[test]
fn reaching_defs_join_over_branches() {
    let f = diamond_mir();
    let rd = ReachingDefs::new(&f);
    let outs = rd.run();
    // Definitions: 0 = Dummy(output), 1 = Dummy(arg)? No: arity is 1, so the
    // dummies are for the single non-parameter suffix of the locals.
    // locals = [output, arg], arity 1 skips output: dummy 0 is Dummy(arg),
    // 1 = assign in block 1, 2 = assign in block 2.
    let row3 = outs.get(BasicBlockId(3)).unwrap();
    assert!(row3.get(0));
    assert!(row3.get(1));
    assert!(row3.get(2));
    let row1 = outs.get(BasicBlockId(1)).unwrap();
    assert!(row1.get(1));
    assert!(!row1.get(2));
}

#[test]
fn dataflow_lists_reaching_definitions() {
    let f = identity_mir();
    let (_rd, outs, m) = dataflow(&f);
    assert_eq!(outs.len(), 3);
    assert_eq!(m.len(), 3);
    // The entry row holds the dummy of the one non-parameter local.
    let entry_row = m.get(BasicBlockId(1)).unwrap();
    assert_eq!(entry_row.len(), 1);
    assert!(matches!(entry_row[0], Def::Dummy(_)));
    let row0 = m.get(BasicBlockId(0)).unwrap();
    assert_eq!(row0.len(), 2);
    assert!(row0.iter().any(|d| matches!(d,
        Def::Real { block: BasicBlockId(0), stmt_index: 0 })));
}

#[test]
fn live_variables_flow_backward() {
    let f = identity_mir();
    let ins = LiveVariable::new(&f).run();
    // Before block 0, only the argument is live: the return value is
    // rewritten before it is read.
    let row0 = ins.get(BasicBlockId(0)).unwrap();
    assert!(!row0.get(0));
    assert!(row0.get(1));
}

#[test]
fn live_variables_through_a_loop() {
    // 0: i = 0; 1: c = i < arg, branch; 2: i = i + 1, back to 1; 3: return r.
    let mut builder = Function::builder(1);
    let output = builder.add_local(Ty::Int);
    let arg = builder.add_local(Ty::Int);
    let i = builder.add_local(Ty::Int);
    let c = builder.add_local(Ty::Bool);
    let bb0 = builder.add_block();
    let bb1 = builder.add_block();
    let bb2 = builder.add_block();
    let bb3 = builder.add_block();
    *builder.block_mut(bb0) = Some(BasicBlock {
        statements: vec![Statement::Assign { lhs: i, rhs: Rvalue::Use(const_int(0)) }],
        terminator: Terminator::Jump(bb1),
    });
    *builder.block_mut(bb1) = Some(BasicBlock {
        statements: vec![Statement::Assign {
            lhs: c,
            rhs: Rvalue::BinaryOp {
                op: BinOp::Lt,
                lhs: Operand::Local(i),
                rhs: Operand::Local(arg),
            },
        }],
        terminator: Terminator::JumpIf { cond: Operand::Local(c), then_bb: bb2, else_bb: bb3 },
    });
    *builder.block_mut(bb2) = Some(BasicBlock {
        statements: vec![Statement::Assign {
            lhs: i,
            rhs: Rvalue::BinaryOp { op: BinOp::Add, lhs: Operand::Local(i), rhs: const_int(1) },
        }],
        terminator: Terminator::Jump(bb1),
    });
    *builder.block_mut(bb3) = Some(BasicBlock {
        statements: vec![],
        terminator: Terminator::Return(output),
    });
    let f = builder.finish();
    let ins = LiveVariable::new(&f).run();
    // At the loop head both the counter and the bound are live, and so is
    // the untouched return value that block 3 needs.
    let row1 = ins.get(BasicBlockId(1)).unwrap();
    assert!(row1.get(0));
    assert!(row1.get(1));
    assert!(row1.get(2));
    assert!(!row1.get(3));
    // Before block 0 the counter is not yet live; it is defined first.
    let row0 = ins.get(BasicBlockId(0)).unwrap();
    assert!(!row0.get(2));
}

#[test]
fn immediate_dominators_of_the_diamond() {
    let f = diamond_mir();
    let idoms = DominatorTreeBuilder::new(&f).build();
    assert_eq!(idoms.len(), 6);
    // The entry sentinel immediately dominates block 0; block 0 immediately
    // dominates both branches and the join.
    assert_eq!(*idoms.get(BasicBlockId(0)).unwrap(), Some(BasicBlockId(4)));
    assert_eq!(*idoms.get(BasicBlockId(1)).unwrap(), Some(BasicBlockId(0)));
    assert_eq!(*idoms.get(BasicBlockId(2)).unwrap(), Some(BasicBlockId(0)));
    assert_eq!(*idoms.get(BasicBlockId(3)).unwrap(), Some(BasicBlockId(0)));
}

#[test]
fn dominance_frontier_of_the_diamond() {
    let f = diamond_mir();
    let frontiers = dominance_frontiers(&f);
    assert_eq!(frontiers.len(), 6);
    // The join is on the frontier of both branches but of neither 0 nor 3.
    assert_eq!(frontiers.get(BasicBlockId(1)).unwrap().as_slice(), &[BasicBlockId(3)]);
    assert_eq!(frontiers.get(BasicBlockId(2)).unwrap().as_slice(), &[BasicBlockId(3)]);
    assert!(frontiers.get(BasicBlockId(0)).unwrap().is_empty());
    assert!(frontiers.get(BasicBlockId(3)).unwrap().is_empty());
}
