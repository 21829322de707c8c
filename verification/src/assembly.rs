//! The target-neutral instruction layer.
//!
//! Lowering produces an [`Instructions`] list whose jump targets are symbolic
//! [`Label`]s; their byte offsets stay unknown until encoding. The encoder
//! resolves them with a two-pass patch table.

pub mod assembler;
pub mod mod_rm;
pub mod optimize;
pub mod portable;
pub mod register;
pub mod rex;
pub mod sib;

use vstd::prelude::*;

verus! {

/// A 32-bit immediate.
pub type Imm32 = i32;

/// A 64-bit immediate.
pub type Imm64 = i64;

/// A base register plus an offset.
#[derive(Debug, Clone, Copy, PartialEq, Eq, Structural)]
pub struct Address<I, R> {
    pub base: R,
    pub offset: I,
}

/// A symbolic branch target, resolved to a byte offset by the encoder.
#[derive(Debug, Clone, Copy, PartialEq, Eq, Structural)]
pub struct Label(pub usize);

/// One target-neutral instruction.
#[derive(Debug, Clone, Copy, PartialEq, Eq, Structural)]
pub enum InstructionKind<R> {
    LoadImm { src: Imm64, dst: R },
    LoadAddr { src: Address<Imm32, R>, dst: R },
    Store { src: R, dst: Address<Imm32, R> },
    Mov { src: R, dst: R },
    Push(R),
    Pop(R),
    Add { src: R, dst: R },
    AddImm { src: Imm32, dst: R },
    SetIfLess { src1: R, src2: R, dst: R },
    Jump(Label),
    JumpIfZero { src: R, target: Label },
    Return,
    Call(R),
    Nop,
}

/// An instruction together with the label attached to it, if any.
#[derive(Debug, Clone, Copy, PartialEq, Eq, Structural)]
pub struct Instruction<R> {
    pub label: Option<Label>,
    pub kind: InstructionKind<R>,
}

/// Which labels does `k` jump to?
pub open spec fn kind_label_wf<R>(k: InstructionKind<R>, nlabels: int) -> bool {
    match k {
        InstructionKind::Jump(l) => l.0 < nlabels,
        InstructionKind::JumpIfZero { target, .. } => target.0 < nlabels,
        _ => true,
    }
}

/// Are all labels mentioned by `ins` below `nlabels`?
pub open spec fn instruction_label_wf<R>(ins: Instruction<R>, nlabels: int) -> bool {
    &&& match ins.label {
        Some(l) => l.0 < nlabels,
        None => true,
    }
    &&& kind_label_wf(ins.kind, nlabels)
}

/// An instruction list together with the number of labels handed out so far.
pub struct Instructions<R> {
    instructions: Vec<Instruction<R>>,
    labels_len: usize,
}

impl<R> View for Instructions<R> {
    type V = Seq<Instruction<R>>;

    closed spec fn view(&self) -> Seq<Instruction<R>> {
        self.instructions@
    }
}

impl<R> Instructions<R> {
    /// How many labels were handed out.
    pub closed spec fn spec_labels_len(self) -> int {
        self.labels_len as int
    }

    /// Every label mentioned anywhere in the list was handed out by
    /// `add_label`.
    pub open spec fn wf(self) -> bool {
        forall|i: int| 0 <= i < self@.len()
            ==> instruction_label_wf(#[trigger] self@[i], self.spec_labels_len())
    }

    /// An empty list with no labels.
    pub fn new() -> (r: Self)
        ensures
            r@.len() == 0,
            r.spec_labels_len() == 0,
            r.wf(),
    {
        Instructions { instructions: Vec::new(), labels_len: 0 }
    }

    /// Create a new label, different from all the labels created before.
    pub fn add_label(&mut self) -> (r: Label)
        requires
            old(self).spec_labels_len() + 1 <= usize::MAX,
        ensures
            r.0 == old(self).spec_labels_len(),
            final(self).spec_labels_len() == old(self).spec_labels_len() + 1,
            final(self)@ == old(self)@,
            old(self).wf() ==> final(self).wf(),
    {
        let label = Label(self.labels_len);
        self.labels_len = self.labels_len + 1;
        proof {
            if old(self).wf() {
                assert forall|i: int| 0 <= i < self@.len()
                    implies instruction_label_wf(#[trigger] self@[i], self.spec_labels_len()) by {
                    assert(instruction_label_wf(old(self)@[i], old(self).spec_labels_len()));
                }
            }
        }
        label
    }

    /// Append an instruction. Its labels must have been handed out by
    /// `add_label`.
    pub fn add_instruction(&mut self, instruction: Instruction<R>)
        requires
            instruction_label_wf(instruction, old(self).spec_labels_len()),
        ensures
            final(self)@ == old(self)@.push(instruction),
            final(self).spec_labels_len() == old(self).spec_labels_len(),
            old(self).wf() ==> final(self).wf(),
    {
        self.instructions.push(instruction)
    }

    /// Read the instruction at `i`.
    pub fn at(&self, i: usize) -> (r: &Instruction<R>)
        requires
            i < self@.len(),
        ensures
            *r == self@[i as int],
    {
        &self.instructions[i]
    }

    /// The number of labels handed out so far.
    pub fn labels_len(&self) -> (r: usize)
        ensures
            r == self.spec_labels_len(),
    {
        self.labels_len
    }

    /// The number of instructions.
    pub fn len(&self) -> (r: usize)
        ensures
            r == self@.len(),
    {
        self.instructions.len()
    }

    /// Borrow the instruction at `index` mutably.
    pub fn get_mut(&mut self, index: usize) -> (r: &mut Instruction<R>)
        requires
            index < old(self)@.len(),
        ensures
            *r == old(self)@[index as int],
            final(self)@ == old(self)@.update(index as int, *final(r)),
            final(self).spec_labels_len() == old(self).spec_labels_len(),
    {
        &mut self.instructions[index]
    }
}

} // verus!
