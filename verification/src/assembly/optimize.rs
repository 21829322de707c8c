//! The peephole pass: erase jumps to the immediately following label.
//!
//! A jump to the next instruction is redundant; the slot keeps a `Nop` so
//! that instruction indices stay stable for any debug printing.

use vstd::prelude::*;

use crate::assembly::{instruction_label_wf, Instruction, InstructionKind, Instructions, Label};

verus! {

/// Is the instruction at `i` a jump whose target labels the instruction
/// right after it?
pub open spec fn jump_to_next<R>(s: Seq<Instruction<R>>, i: int) -> bool {
    &&& 0 <= i < s.len() - 1
    &&& match s[i].kind {
        InstructionKind::Jump(target) => s[i + 1].label == Some(target),
        _ => false,
    }
}

/// The list after the dead-jump pass: every jump to the immediately
/// following label becomes a `Nop`, keeping its own label; everything else
/// stays.
pub open spec fn dead_jumps_spec<R>(s: Seq<Instruction<R>>) -> Seq<Instruction<R>> {
    Seq::new(
        s.len(),
        |i: int| if jump_to_next(s, i) {
            Instruction { label: s[i].label, kind: InstructionKind::Nop }
        } else {
            s[i]
        },
    )
}

/// The dead-jump pass reaches a fixed point after one run: labels are never
/// touched, and a rewritten slot is a `Nop`, which the pass leaves alone.
pub proof fn lemma_dead_jumps_idempotent<R>(s: Seq<Instruction<R>>)
    ensures
        dead_jumps_spec(dead_jumps_spec(s)) == dead_jumps_spec(s),
{
    let once = dead_jumps_spec(s);
    assert forall|i: int| 0 <= i < once.len() implies !jump_to_next(once, i) by {
        if jump_to_next(once, i) {
            assert(once[i].kind is Jump);
            assert(!jump_to_next(s, i));
            assert(once[i] == s[i]);
            assert(once[i + 1].label == s[i + 1].label);
            assert(jump_to_next(s, i));
        }
    }
    assert(dead_jumps_spec(once) =~= once);
}

impl<R> Instructions<R> {
    /// Run the optimisation passes over the list; today that is the
    /// dead-jump removal alone.
    pub fn optimize(&mut self)
        ensures
            final(self)@ == dead_jumps_spec(old(self)@),
            final(self).spec_labels_len() == old(self).spec_labels_len(),
            old(self).wf() ==> final(self).wf(),
    {
        self.dead_jumps();
    }

    /// Erase every jump to the immediately following label.
    fn dead_jumps(&mut self)
        ensures
            final(self)@ == dead_jumps_spec(old(self)@),
            final(self).spec_labels_len() == old(self).spec_labels_len(),
            old(self).wf() ==> final(self).wf(),
    {
        let n = self.len();
        if n == 0 {
            proof {
                assert(self@ =~= dead_jumps_spec(old(self)@));
            }
            return ;
        }
        let mut i: usize = 0;
        while i < n - 1
            invariant
                n == old(self)@.len(),
                n == self@.len(),
                n >= 1,
                0 <= i <= n - 1,
                self.spec_labels_len() == old(self).spec_labels_len(),
                forall|j: int| i <= j < n ==> self@[j] == old(self)@[j],
                forall|j: int| 0 <= j < i ==> #[trigger] self@[j] == dead_jumps_spec(old(self)@)[j],
            decreases n - i,
        {
            let next_label = self.instructions[i + 1].label;
            let jump_target: Option<Label> = match self.instructions[i].kind {
                InstructionKind::Jump(target) => Some(target),
                _ => None,
            };
            match (jump_target, next_label) {
                (Some(t), Some(l)) => {
                    if t == l {
                        let slot = &mut self.instructions[i];
                        slot.kind = InstructionKind::Nop;
                    }
                }
                _ => {}
            }
            proof {
                assert(self@[i as int] == dead_jumps_spec(old(self)@)[i as int]);
            }
            i = i + 1;
        }
        proof {
            assert(self@[n - 1] == old(self)@[n - 1]);
            assert(!jump_to_next(old(self)@, n - 1));
            assert(self@ =~= dead_jumps_spec(old(self)@));
            if old(self).wf() {
                assert forall|j: int| 0 <= j < self@.len()
                    implies instruction_label_wf(#[trigger] self@[j], self.spec_labels_len()) by {
                    assert(instruction_label_wf(old(self)@[j], old(self).spec_labels_len()));
                }
            }
        }
    }
}

} // verus!
