//! MIR → abstract instruction lowering.
//!
//! A register-allocation-free, operand-pattern-directed translation: the
//! locals are bound injectively, in declaration order, to the fixed window
//! `[rax, rdi, rsi, rdx, rcx]`, each block gets a label equal to its own
//! index, and every statement is matched on the shape of its operands.

use vstd::prelude::*;

use crate::assembly::assembler::{
    lemma_resolved_prefix, program_locs, program_patches, program_patches_ok,
};
use crate::assembly::optimize::{dead_jumps_spec, jump_to_next};
use crate::assembly::register::Register;
use crate::assembly::{
    instruction_label_wf, kind_label_wf, Imm32, Instruction, InstructionKind, Instructions,
    Label,
};
use crate::mir::{
    block_wf, stmt_wf, term_wf, BasicBlock, BinOp, Function, Local, Operand, Rvalue, Statement,
    Terminator,
};

verus! {

/// The register window: local `i` lives in `window(i)` for its whole life.
pub open spec fn window(i: int) -> Register {
    if i == 0 {
        Register::Ax
    } else if i == 1 {
        Register::Di
    } else if i == 2 {
        Register::Si
    } else if i == 3 {
        Register::Dx
    } else {
        Register::Cx
    }
}

/// The 32-bit immediate of a constant operand, reinterpreted as signed.
pub open spec fn op_imm(o: Operand) -> Imm32 {
    o->Constant_0.data as i32
}

/// The register of a local operand.
pub open spec fn op_reg(o: Operand) -> Register {
    window(o->Local_0.0 as int)
}

/// The instructions selected for `lhs = rhs`, by operand shape.
pub open spec fn assign_kinds(lhs: Local, rhs: Rvalue) -> Seq<InstructionKind<Register>> {
    let d = window(lhs.0 as int);
    match rhs {
        Rvalue::Use(o) => if o is Local {
            seq![InstructionKind::Mov { src: op_reg(o), dst: d }]
        } else {
            seq![InstructionKind::LoadImm { src: op_imm(o) as i64, dst: d }]
        },
        Rvalue::BinaryOp { op, lhs: a, rhs: b } => match op {
            BinOp::Add => {
                if a is Local && b is Local {
                    if d == op_reg(a) {
                        seq![InstructionKind::Add { src: op_reg(b), dst: d }]
                    } else if d == op_reg(b) {
                        seq![InstructionKind::Add { src: op_reg(a), dst: d }]
                    } else {
                        seq![
                            InstructionKind::Mov { src: op_reg(a), dst: d },
                            InstructionKind::Add { src: op_reg(b), dst: d },
                        ]
                    }
                } else if a is Local {
                    if d == op_reg(a) {
                        seq![InstructionKind::AddImm { src: op_imm(b), dst: d }]
                    } else {
                        seq![
                            InstructionKind::Mov { src: op_reg(a), dst: d },
                            InstructionKind::AddImm { src: op_imm(b), dst: d },
                        ]
                    }
                } else if b is Local {
                    if d == op_reg(b) {
                        seq![InstructionKind::AddImm { src: op_imm(a), dst: d }]
                    } else {
                        seq![
                            InstructionKind::LoadImm { src: op_imm(a) as i64, dst: d },
                            InstructionKind::Add { src: op_reg(b), dst: d },
                        ]
                    }
                } else {
                    seq![
                        InstructionKind::LoadImm { src: op_imm(a) as i64, dst: d },
                        InstructionKind::AddImm { src: op_imm(b), dst: d },
                    ]
                }
            }
            BinOp::Lt => {
                if a is Local && b is Local {
                    seq![InstructionKind::SetIfLess { src1: op_reg(a), src2: op_reg(b), dst: d }]
                } else {
                    // Both constant: the comparison is folded at lowering time.
                    seq![InstructionKind::LoadImm {
                        src: if op_imm(a) < op_imm(b) { 1i64 } else { 0i64 },
                        dst: d,
                    }]
                }
            }
        },
        Rvalue::Phi(_) => Seq::empty(),
    }
}

/// The instructions selected for one statement; a `Nop` emits nothing.
pub open spec fn stmt_kinds(s: Statement) -> Seq<InstructionKind<Register>> {
    match s {
        Statement::Assign { lhs, rhs } => assign_kinds(lhs, rhs),
        Statement::Nop => Seq::empty(),
    }
}

/// The instructions selected for a terminator. A conditional jump on a
/// register compares against zero and falls through to an unconditional
/// jump; one on a constant is folded to a single jump.
pub open spec fn term_kinds(t: Terminator) -> Seq<InstructionKind<Register>> {
    match t {
        Terminator::Jump(b) => seq![InstructionKind::Jump(Label(b.0))],
        Terminator::Return(_) => seq![InstructionKind::Return],
        Terminator::JumpIf { cond, then_bb, else_bb } => if cond is Local {
            seq![
                InstructionKind::JumpIfZero { src: op_reg(cond), target: Label(else_bb.0) },
                InstructionKind::Jump(Label(then_bb.0)),
            ]
        } else {
            if op_imm(cond) == 0 {
                seq![InstructionKind::Jump(Label(else_bb.0))]
            } else {
                seq![InstructionKind::Jump(Label(then_bb.0))]
            }
        },
    }
}

/// The instructions of a block's statements, in order.
pub open spec fn stmts_kinds(stmts: Seq<Statement>) -> Seq<InstructionKind<Register>>
    decreases stmts.len(),
{
    if stmts.len() == 0 {
        Seq::empty()
    } else {
        stmts_kinds(stmts.drop_last()) + stmt_kinds(stmts.last())
    }
}

/// Can `rhs` be lowered? `Phi` cannot, and a `Lt` needs both operands in
/// registers or both constant.
pub open spec fn rvalue_lowerable(r: Rvalue) -> bool {
    match r {
        Rvalue::Use(_) => true,
        Rvalue::BinaryOp { op, lhs, rhs } => match op {
            BinOp::Add => true,
            BinOp::Lt => (lhs is Local && rhs is Local)
                || (lhs is Constant && rhs is Constant),
        },
        Rvalue::Phi(_) => false,
    }
}

/// Can `s` be lowered?
pub open spec fn stmt_lowerable(s: Statement) -> bool {
    match s {
        Statement::Assign { rhs, .. } => rvalue_lowerable(rhs),
        Statement::Nop => true,
    }
}

/// Can every statement of the function be lowered?
pub open spec fn fn_lowerable(f: Function) -> bool {
    forall|b: int, i: int| 0 <= b < f.n() && 0 <= i < f.blocks@[b].statements@.len()
        ==> stmt_lowerable(#[trigger] f.blocks@[b].statements@[i])
}

/// The labelled instructions of block `b`: its statements' instructions,
/// then its terminator's, with the block's label attached to the first.
pub open spec fn lower_block_spec(blk: BasicBlock, b: int) -> Seq<Instruction<Register>> {
    let kinds = stmts_kinds(blk.statements@) + term_kinds(blk.terminator);
    Seq::new(
        kinds.len(),
        |i: int| Instruction {
            label: if i == 0 {
                Some(Label(b as usize))
            } else {
                None
            },
            kind: kinds[i],
        },
    )
}

/// The instructions of blocks `0..p`, concatenated.
pub open spec fn lower_blocks_spec(f: Function, p: int) -> Seq<Instruction<Register>>
    decreases p,
{
    if p <= 0 {
        Seq::empty()
    } else {
        lower_blocks_spec(f, p - 1) + lower_block_spec(f.blocks@[p - 1], p - 1)
    }
}

/// A sequence of kinds, each wrapped as an unlabelled instruction.
pub open spec fn unlabeled(kinds: Seq<InstructionKind<Register>>) -> Seq<Instruction<Register>> {
    Seq::new(kinds.len(), |i: int| Instruction { label: None, kind: kinds[i] })
}

/// The register a local is bound to.
fn local_register(l: Local) -> (r: Register)
    requires
        l.0 < 5,
    ensures
        r == window(l.0 as int),
{
    if l.0 == 0 {
        Register::Ax
    } else if l.0 == 1 {
        Register::Di
    } else if l.0 == 2 {
        Register::Si
    } else if l.0 == 3 {
        Register::Dx
    } else {
        Register::Cx
    }
}

/// An operand as the emitter sees it: a window register or an immediate.
enum LoweredOperand {
    Reg(Register),
    Imm32(Imm32),
}

/// Collects the emitted instructions; block labels were handed out first,
/// one per block, so block `b`'s label is `Label(b)`.
struct LowerCtx {
    instructions: Instructions<Register>,
}

impl LowerCtx {
    spec fn out(self) -> Seq<Instruction<Register>> {
        self.instructions@
    }

    spec fn nlabels(self) -> int {
        self.instructions.spec_labels_len()
    }

    fn lower_operand(&self, operand: &Operand) -> (r: LoweredOperand)
        requires
            operand is Local ==> operand->Local_0.0 < 5,
        ensures
            operand is Local ==> r is Reg && r->Reg_0 == op_reg(*operand),
            operand is Constant ==> r is Imm32 && r->Imm32_0 == op_imm(*operand),
    {
        match operand {
            Operand::Local(local) => LoweredOperand::Reg(local_register(*local)),
            Operand::Constant(literal) => LoweredOperand::Imm32(literal.data as i32),
        }
    }

    fn push_kind(&mut self, kind: InstructionKind<Register>)
        requires
            crate::assembly::kind_label_wf(kind, old(self).nlabels()),
        ensures
            final(self).out() == old(self).out().push(
                Instruction { label: None, kind },
            ),
            final(self).nlabels() == old(self).nlabels(),
            old(self).instructions.wf() ==> final(self).instructions.wf(),
    {
        self.instructions.add_instruction(Instruction { label: None, kind });
    }

    fn lower_statement(&mut self, statement: &Statement)
        requires
            stmt_lowerable(*statement),
            stmt_wf(*statement, 5, old(self).nlabels()),
        ensures
            final(self).out() == old(self).out() + unlabeled(stmt_kinds(*statement)),
            final(self).nlabels() == old(self).nlabels(),
            old(self).instructions.wf() ==> final(self).instructions.wf(),
    {
        match statement {
            Statement::Nop => {
                proof {
                    assert(self.out() =~= old(self).out() + unlabeled(stmt_kinds(*statement)));
                }
            }
            Statement::Assign { lhs, rhs } => {
                let d = local_register(*lhs);
                match rhs {
                    Rvalue::Use(operand) => {
                        match self.lower_operand(operand) {
                            LoweredOperand::Reg(src) => {
                                self.push_kind(InstructionKind::Mov { src, dst: d });
                            }
                            LoweredOperand::Imm32(imm) => {
                                self.push_kind(InstructionKind::LoadImm {
                                    src: imm as i64,
                                    dst: d,
                                });
                            }
                        }
                    }
                    Rvalue::BinaryOp { op, lhs: a, rhs: b } => {
                        let la = self.lower_operand(a);
                        let lb = self.lower_operand(b);
                        match (la, lb) {
                            (LoweredOperand::Reg(ra), LoweredOperand::Reg(rb)) => match op {
                                BinOp::Add => {
                                    if d == ra {
                                        self.push_kind(InstructionKind::Add { src: rb, dst: d });
                                    } else if d == rb {
                                        self.push_kind(InstructionKind::Add { src: ra, dst: d });
                                    } else {
                                        self.push_kind(InstructionKind::Mov { src: ra, dst: d });
                                        self.push_kind(InstructionKind::Add { src: rb, dst: d });
                                    }
                                }
                                BinOp::Lt => {
                                    self.push_kind(InstructionKind::SetIfLess {
                                        src1: ra,
                                        src2: rb,
                                        dst: d,
                                    });
                                }
                            },
                            (LoweredOperand::Reg(ra), LoweredOperand::Imm32(ib)) => {
                                if d == ra {
                                    self.push_kind(InstructionKind::AddImm { src: ib, dst: d });
                                } else {
                                    self.push_kind(InstructionKind::Mov { src: ra, dst: d });
                                    self.push_kind(InstructionKind::AddImm { src: ib, dst: d });
                                }
                            }
                            (LoweredOperand::Imm32(ia), LoweredOperand::Reg(rb)) => {
                                if d == rb {
                                    self.push_kind(InstructionKind::AddImm { src: ia, dst: d });
                                } else {
                                    self.push_kind(InstructionKind::LoadImm {
                                        src: ia as i64,
                                        dst: d,
                                    });
                                    self.push_kind(InstructionKind::Add { src: rb, dst: d });
                                }
                            }
                            (LoweredOperand::Imm32(ia), LoweredOperand::Imm32(ib)) => match op {
                                BinOp::Add => {
                                    self.push_kind(InstructionKind::LoadImm {
                                        src: ia as i64,
                                        dst: d,
                                    });
                                    self.push_kind(InstructionKind::AddImm { src: ib, dst: d });
                                }
                                BinOp::Lt => {
                                    let imm: i64 = if ia < ib { 1 } else { 0 };
                                    self.push_kind(InstructionKind::LoadImm { src: imm, dst: d });
                                }
                            },
                        }
                    }
                    Rvalue::Phi(_) => {
                        proof {
                            assert(false);
                        }
                    }
                }
                proof {
                    assert(self.out() =~= old(self).out() + unlabeled(stmt_kinds(*statement)));
                }
            }
        }
    }

    fn lower_terminator(&mut self, terminator: &Terminator)
        requires
            term_wf(*terminator, 5, old(self).nlabels()),
        ensures
            final(self).out() == old(self).out() + unlabeled(term_kinds(*terminator)),
            final(self).nlabels() == old(self).nlabels(),
            old(self).instructions.wf() ==> final(self).instructions.wf(),
    {
        match terminator {
            Terminator::Jump(bb) => {
                self.push_kind(InstructionKind::Jump(Label(bb.0)));
            }
            Terminator::Return(_) => {
                self.push_kind(InstructionKind::Return);
            }
            Terminator::JumpIf { cond, then_bb, else_bb } => {
                match self.lower_operand(cond) {
                    LoweredOperand::Reg(c) => {
                        self.push_kind(InstructionKind::JumpIfZero {
                            src: c,
                            target: Label(else_bb.0),
                        });
                        self.push_kind(InstructionKind::Jump(Label(then_bb.0)));
                    }
                    LoweredOperand::Imm32(c) => {
                        let bb = if c == 0 { else_bb } else { then_bb };
                        self.push_kind(InstructionKind::Jump(Label(bb.0)));
                    }
                }
            }
        }
        proof {
            assert(self.out() =~= old(self).out() + unlabeled(term_kinds(*terminator)));
        }
    }

    fn lower_block(&mut self, bb: usize, bb_data: &BasicBlock)
        requires
            block_wf(*bb_data, 5, old(self).nlabels()),
            bb < old(self).nlabels(),
            forall|i: int| 0 <= i < bb_data.statements@.len()
                ==> stmt_lowerable(#[trigger] bb_data.statements@[i]),
        ensures
            final(self).out() == old(self).out() + lower_block_spec(*bb_data, bb as int),
            final(self).nlabels() == old(self).nlabels(),
            old(self).instructions.wf() ==> final(self).instructions.wf(),
    {
        let start = self.instructions.len();
        let nstmts = bb_data.statements.len();
        let mut i: usize = 0;
        while i < nstmts
            invariant
                nstmts == bb_data.statements@.len(),
                0 <= i <= nstmts,
                block_wf(*bb_data, 5, old(self).nlabels()),
                forall|j: int| 0 <= j < bb_data.statements@.len()
                    ==> stmt_lowerable(#[trigger] bb_data.statements@[j]),
                self.nlabels() == old(self).nlabels(),
                old(self).instructions.wf() ==> self.instructions.wf(),
                self.out() == old(self).out()
                    + unlabeled(stmts_kinds(bb_data.statements@.subrange(0, i as int))),
            decreases nstmts - i,
        {
            let ghost pre = self.out();
            self.lower_statement(&bb_data.statements[i]);
            proof {
                let upto = bb_data.statements@.subrange(0, i + 1);
                assert(upto.drop_last() =~= bb_data.statements@.subrange(0, i as int));
                assert(upto.last() == bb_data.statements@[i as int]);
                assert(self.out() =~= old(self).out() + unlabeled(stmts_kinds(upto)));
            }
            i = i + 1;
        }
        proof {
            assert(bb_data.statements@.subrange(0, nstmts as int) =~= bb_data.statements@);
        }
        self.lower_terminator(&bb_data.terminator);
        proof {
            assert(self.out() =~= old(self).out() + unlabeled(
                stmts_kinds(bb_data.statements@) + term_kinds(bb_data.terminator),
            ));
            assert(term_kinds(bb_data.terminator).len() >= 1);
        }
        // Attach the block's label to the first instruction emitted for it.
        let slot = self.instructions.get_mut(start);
        slot.label = Some(Label(bb));
        proof {
            assert(self.out() =~= old(self).out() + lower_block_spec(*bb_data, bb as int));
            if old(self).instructions.wf() {
                assert forall|j: int| 0 <= j < self.out().len()
                    implies crate::assembly::instruction_label_wf(
                    #[trigger] self.out()[j],
                    self.nlabels(),
                ) by {}
            }
        }
    }
}

/// Lower a whole function to a target-neutral instruction list with one
/// label per block.
pub fn lower_function(func: &Function) -> (r: Instructions<Register>)
    requires
        func.wf(),
        func.arity <= 3,
        func.locals@.len() <= 5,
        fn_lowerable(*func),
    ensures
        r@ == lower_blocks_spec(*func, func.n()),
        r.spec_labels_len() == func.n(),
        r.wf(),
{
    let n = func.blocks.len();
    let np = func.preds.len();
    proof {
        assert(np == func.n() + 2);
    }
    let mut instructions: Instructions<Register> = Instructions::new();
    let mut k: usize = 0;
    while k < n
        invariant
            n == func.n(),
            n + 2 <= usize::MAX,
            0 <= k <= n,
            instructions@.len() == 0,
            instructions.spec_labels_len() == k,
            instructions.wf(),
        decreases n - k,
    {
        let _ = instructions.add_label();
        k = k + 1;
    }
    let mut ctx = LowerCtx { instructions };
    proof {
        assert(ctx.out() =~= lower_blocks_spec(*func, 0));
    }
    let mut p: usize = 0;
    while p < n
        invariant
            n == func.n(),
            func.wf(),
            func.locals@.len() <= 5,
            fn_lowerable(*func),
            0 <= p <= n,
            ctx.nlabels() == n,
            ctx.instructions.wf(),
            ctx.out() == lower_blocks_spec(*func, p as int),
        decreases n - p,
    {
        let bb_data = func.blocks.at(crate::mir::BasicBlockId(p));
        proof {
            assert(block_wf(func.blocks@[p as int], func.locals@.len() as int, func.n()));
            assert forall|i: int| 0 <= i < bb_data.statements@.len()
                implies stmt_lowerable(#[trigger] bb_data.statements@[i]) by {
                assert(stmt_lowerable(func.blocks@[p as int].statements@[i]));
            }
        }
        ctx.lower_block(p, bb_data);
        p = p + 1;
    }
    ctx.instructions
}

/// `program_locs` always has one slot per label when every attached label
/// is in range.
proof fn lemma_locs_len(s: Seq<Instruction<Register>>, nlabels: int)
    requires
        nlabels >= 0,
        forall|k: int| 0 <= k < s.len() ==> instruction_label_wf(#[trigger] s[k], nlabels),
    ensures
        program_locs(s, nlabels).len() == nlabels,
    decreases s.len(),
{
    if s.len() > 0 {
        assert forall|k: int| 0 <= k < s.drop_last().len()
            implies instruction_label_wf(#[trigger] s.drop_last()[k], nlabels) by {
            assert(s.drop_last()[k] == s[k]);
        }
        lemma_locs_len(s.drop_last(), nlabels);
        assert(instruction_label_wf(s.last(), nlabels));
    }
}

/// A label attached to some instruction of the list ends up located.
proof fn lemma_label_located(s: Seq<Instruction<Register>>, nlabels: int, l: int)
    requires
        nlabels <= usize::MAX,
        0 <= l < nlabels,
        forall|k: int| 0 <= k < s.len() ==> instruction_label_wf(#[trigger] s[k], nlabels),
        exists|i: int| 0 <= i < s.len() && (#[trigger] s[i]).label == Some(Label(l as usize)),
    ensures
        program_locs(s, nlabels)[l] is Some,
    decreases s.len(),
{
    lemma_locs_len(s, nlabels);
    assert forall|k: int| 0 <= k < s.drop_last().len()
        implies instruction_label_wf(#[trigger] s.drop_last()[k], nlabels) by {
        assert(s.drop_last()[k] == s[k]);
    }
    let i = choose|i: int| 0 <= i < s.len() && (#[trigger] s[i]).label
        == Some(Label(l as usize));
    lemma_locs_len(s.drop_last(), nlabels);
    if i == s.len() - 1 {
        assert(s.last().label == Some(Label(l as usize)));
        assert(program_locs(s, nlabels)[l] is Some);
    } else {
        assert(s.drop_last()[i] == s[i]);
        lemma_label_located(s.drop_last(), nlabels, l);
        match s.last().label {
            Some(l2) => {
                assert(instruction_label_wf(s.last(), nlabels));
                if l2.0 as int == l {
                    assert(program_locs(s, nlabels)[l] is Some);
                } else {
                    assert(program_locs(s, nlabels)[l]
                        == program_locs(s.drop_last(), nlabels)[l]);
                }
            }
            None => {}
        }
    }
}

/// Every statement-selected instruction is jumpless, so all its labels are
/// in range vacuously.
proof fn lemma_stmt_kinds_labels(stmts: Seq<Statement>, nlabels: int)
    ensures
        forall|k: int| 0 <= k < stmts_kinds(stmts).len()
            ==> kind_label_wf(#[trigger] stmts_kinds(stmts)[k], nlabels),
    decreases stmts.len(),
{
    if stmts.len() > 0 {
        lemma_stmt_kinds_labels(stmts.drop_last(), nlabels);
        let prefix = stmts_kinds(stmts.drop_last());
        let tail = stmt_kinds(stmts.last());
        assert forall|k: int| 0 <= k < tail.len() implies kind_label_wf(
            #[trigger] tail[k],
            nlabels,
        ) by {}
        assert forall|k: int| 0 <= k < stmts_kinds(stmts).len() implies kind_label_wf(
            #[trigger] stmts_kinds(stmts)[k],
            nlabels,
        ) by {
            if k < prefix.len() {
                assert(stmts_kinds(stmts)[k] == prefix[k]);
            } else {
                assert(stmts_kinds(stmts)[k] == tail[k - prefix.len()]);
            }
        }
    }
}

/// Every label a lowered block mentions names a real block.
proof fn lemma_lower_block_labels(f: Function, b: int)
    requires
        f.wf(),
        0 <= b < f.n(),
    ensures
        forall|k: int| 0 <= k < lower_block_spec(f.blocks@[b], b).len()
            ==> instruction_label_wf(#[trigger] lower_block_spec(f.blocks@[b], b)[k], f.n()),
{
    let blk = f.blocks@[b];
    lemma_stmt_kinds_labels(blk.statements@, f.n());
    assert(block_wf(blk, f.locals@.len() as int, f.n()));
    assert forall|k: int| 0 <= k < lower_block_spec(blk, b).len()
        implies instruction_label_wf(#[trigger] lower_block_spec(blk, b)[k], f.n()) by {
        let kinds = stmts_kinds(blk.statements@) + term_kinds(blk.terminator);
        if k < stmts_kinds(blk.statements@).len() {
            assert(kinds[k] == stmts_kinds(blk.statements@)[k]);
        } else {
            assert(kinds[k] == term_kinds(blk.terminator)[k
                - stmts_kinds(blk.statements@).len()]);
        }
    }
}

/// Every label the whole lowered list mentions names a real block.
proof fn lemma_lowered_labels(f: Function, p: int)
    requires
        f.wf(),
        0 <= p <= f.n(),
    ensures
        forall|k: int| 0 <= k < lower_blocks_spec(f, p).len()
            ==> instruction_label_wf(#[trigger] lower_blocks_spec(f, p)[k], f.n()),
    decreases p,
{
    if p > 0 {
        lemma_lowered_labels(f, p - 1);
        lemma_lower_block_labels(f, p - 1);
        let prefix = lower_blocks_spec(f, p - 1);
        let tail = lower_block_spec(f.blocks@[p - 1], p - 1);
        assert forall|k: int| 0 <= k < lower_blocks_spec(f, p).len()
            implies instruction_label_wf(#[trigger] lower_blocks_spec(f, p)[k], f.n()) by {
            if k < prefix.len() {
                assert(lower_blocks_spec(f, p)[k] == prefix[k]);
            } else {
                assert(lower_blocks_spec(f, p)[k] == tail[k - prefix.len()]);
            }
        }
    }
}

/// Each block's label is attached to its first lowered instruction.
proof fn lemma_block_label_present(f: Function, p: int, b: int)
    requires
        f.wf(),
        0 <= b < p <= f.n(),
    ensures
        exists|i: int| 0 <= i < lower_blocks_spec(f, p).len()
            && (#[trigger] lower_blocks_spec(f, p)[i]).label == Some(Label(b as usize)),
    decreases p,
{
    let prefix = lower_blocks_spec(f, p - 1);
    let tail = lower_block_spec(f.blocks@[p - 1], p - 1);
    if b == p - 1 {
        assert(term_kinds(f.blocks@[p - 1].terminator).len() >= 1);
        assert(tail.len() >= 1);
        assert(tail[0].label == Some(Label(b as usize)));
        assert(lower_blocks_spec(f, p)[prefix.len() as int] == tail[0]);
        assert((#[trigger] lower_blocks_spec(f, p)[prefix.len() as int]).label
            == Some(Label(b as usize)));
    } else {
        lemma_block_label_present(f, p - 1, b);
        let i = choose|i: int| 0 <= i < prefix.len() && (#[trigger] prefix[i]).label
            == Some(Label(b as usize));
        assert(lower_blocks_spec(f, p)[i] == prefix[i]);
        assert((#[trigger] lower_blocks_spec(f, p)[i]).label == Some(Label(b as usize)));
    }
}

/// Every patch of the list names a label below `nlabels`, provided every
/// instruction does.
proof fn lemma_patch_labels(s: Seq<Instruction<Register>>, nlabels: int)
    requires
        forall|k: int| 0 <= k < s.len()
            ==> instruction_label_wf(#[trigger] s[k], nlabels),
    ensures
        forall|k: int| 0 <= k < program_patches(s).len()
            ==> 0 <= (#[trigger] program_patches(s)[k]).label.0 < nlabels,
    decreases s.len(),
{
    if s.len() > 0 {
        assert forall|k: int| 0 <= k < s.drop_last().len()
            implies instruction_label_wf(#[trigger] s.drop_last()[k], nlabels) by {
            assert(s.drop_last()[k] == s[k]);
        }
        lemma_patch_labels(s.drop_last(), nlabels);
        assert(instruction_label_wf(s.last(), nlabels));
        let prev = program_patches(s.drop_last());
        assert forall|k: int| 0 <= k < program_patches(s).len()
            implies 0 <= (#[trigger] program_patches(s)[k]).label.0 < nlabels by {
            if k < prev.len() {
                assert(program_patches(s)[k] == prev[k]);
            } else {
                assert(kind_label_wf(s.last().kind, nlabels));
            }
        }
    }
}

/// The dead-jump pass keeps every label where it was.
proof fn lemma_dead_jumps_keep_labels(s: Seq<Instruction<Register>>)
    ensures
        forall|i: int| 0 <= i < s.len()
            ==> (#[trigger] dead_jumps_spec(s)[i]).label == s[i].label,
{
}

/// Every well-formed, lowerable function assembles with every patch
/// resolved: each block's label is attached to that block's first
/// instruction, the dead-jump pass moves no label, and every jump names a
/// block's label. So the pipeline never reports a missing label, and every
/// function the builder can produce rounds down to bytes.
pub proof fn lemma_lowered_assembles(f: Function)
    requires
        f.wf(),
        fn_lowerable(f),
    ensures
        program_patches_ok(dead_jumps_spec(lower_blocks_spec(f, f.n())), f.n()),
{
    let lowered = lower_blocks_spec(f, f.n());
    let opt = dead_jumps_spec(lowered);
    let n = f.n();
    lemma_lowered_labels(f, n);
    lemma_dead_jumps_keep_labels(lowered);
    assert forall|k: int| 0 <= k < opt.len()
        implies instruction_label_wf(#[trigger] opt[k], n) by {
        assert(instruction_label_wf(lowered[k], n));
        if jump_to_next(lowered, k) {
        } else {
            assert(opt[k] == lowered[k]);
        }
    }
    lemma_patch_labels(opt, n);
    lemma_locs_len(opt, n);
    let patches = program_patches(opt);
    let locs = program_locs(opt, n);
    assert forall|k: int| 0 <= k < patches.len()
        implies 0 <= (#[trigger] patches[k]).label.0 < locs.len()
            && locs[patches[k].label.0 as int] is Some by {
        let l = patches[k].label.0 as int;
        lemma_block_label_present(f, n, l);
        let i = choose|i: int| 0 <= i < lowered.len() && (#[trigger] lowered[i]).label
            == Some(Label(l as usize));
        assert(opt[i].label == Some(Label(l as usize)));
        lemma_label_located(opt, n, l);
    }
    lemma_resolved_prefix(patches, locs, patches.len() as int);
}

} // verus!
