//! The x86-64 encoder: byte-exact emission of REX / ModR/M / SIB /
//! displacement / immediate sequences for the fixed opcode repertoire, and
//! two-pass resolution of symbolic labels through a patch table.
//!
//! Every jump writes four placeholder bytes and records a patch; `finish`
//! resolves each patch to `label_location - (start + 4)`, written
//! little-endian into the slot.

use vstd::prelude::*;

use crate::assembly::mod_rm::{modrm_byte, ModRmBuilder};
use crate::assembly::register::{spec_encode, spec_needs_extension, Register};
use crate::assembly::rex::{rex_byte, RexBuilder};
use crate::assembly::sib::{sib_byte, Scale, SibBuilder};
use crate::assembly::{
    instruction_label_wf, Address, Imm32, Imm64, Instruction, InstructionKind, Instructions,
    Label,
};

verus! {

/// The little-endian bytes of a 32-bit value.
pub open spec fn u32_le(x: u32) -> Seq<u8> {
    seq![
        (x & 0xff) as u8,
        ((x >> 8) & 0xff) as u8,
        ((x >> 16) & 0xff) as u8,
        ((x >> 24) & 0xff) as u8,
    ]
}

/// The little-endian bytes of a 64-bit value.
pub open spec fn u64_le(x: u64) -> Seq<u8> {
    seq![
        (x & 0xff) as u8,
        ((x >> 8) & 0xff) as u8,
        ((x >> 16) & 0xff) as u8,
        ((x >> 24) & 0xff) as u8,
        ((x >> 32) & 0xff) as u8,
        ((x >> 40) & 0xff) as u8,
        ((x >> 48) & 0xff) as u8,
        ((x >> 56) & 0xff) as u8,
    ]
}

/// The little-endian bytes of a signed 32-bit value.
pub open spec fn i32_le(x: i32) -> Seq<u8> {
    u32_le(x as u32)
}

/// The little-endian bytes of a signed 64-bit value.
pub open spec fn i64_le(x: i64) -> Seq<u8> {
    u64_le(x as u64)
}

/// The encoding of `mov dst, imm` / `xor dst, dst`; the `xor` shortcut for a
/// zero immediate is taken only when `optimize` holds, so that a caller that
/// must reserve a fixed byte count can bypass it.
pub open spec fn enc_load_imm(optimize: bool, src: Imm64, dst: Register) -> Seq<u8> {
    if optimize && src == 0 {
        let prefix: Seq<u8> = if spec_needs_extension(dst) {
            seq![rex_byte(false, true, false, true)]
        } else {
            Seq::empty()
        };
        prefix + seq![0x31u8, modrm_byte(0b11, spec_encode(dst), spec_encode(dst))]
    } else if i32::MIN <= src <= i32::MAX {
        let prefix: Seq<u8> = if spec_needs_extension(dst) {
            seq![rex_byte(false, false, false, true)]
        } else {
            Seq::empty()
        };
        prefix + seq![(0xb8u8 + spec_encode(dst)) as u8] + u32_le((src as i32) as u32)
    } else {
        seq![
            rex_byte(true, false, false, spec_needs_extension(dst)),
            (0xb8u8 + spec_encode(dst)) as u8,
        ] + u64_le(src as u64)
    }
}

/// Does indirect addressing through `base` force an SIB byte? `rsp` and
/// `r12` both encode as `100`, the SIB escape.
pub open spec fn forces_sib(base: Register) -> bool {
    base == Register::Sp || base == Register::R12
}

/// The SIB byte emitted for an `rsp`/`r12` base: scale 1, index and base
/// both the original base.
pub open spec fn enc_sib_for(base: Register) -> Seq<u8> {
    seq![sib_byte(0b00, spec_encode(base), spec_encode(base))]
}

/// The encoding of `mov dst, [base + off32]`.
pub open spec fn enc_load_addr(src: Address<Imm32, Register>, dst: Register) -> Seq<u8> {
    seq![
        rex_byte(true, spec_needs_extension(dst), false, spec_needs_extension(src.base)),
        0x8bu8,
        modrm_byte(0b10, spec_encode(dst), spec_encode(src.base)),
    ] + (if forces_sib(src.base) { enc_sib_for(src.base) } else { Seq::empty() })
        + i32_le(src.offset)
}

/// The encoding of `mov [base + off32], src`. The `reg` field holds the
/// address base and `rm` the source register: that mirrors the reference
/// output this encoder is held to, byte for byte.
pub open spec fn enc_store(src: Register, dst: Address<Imm32, Register>) -> Seq<u8> {
    seq![
        rex_byte(true, spec_needs_extension(dst.base), false, spec_needs_extension(src)),
        0x89u8,
        modrm_byte(0b10, spec_encode(dst.base), spec_encode(src)),
    ] + (if forces_sib(src) { enc_sib_for(src) } else { Seq::empty() })
        + i32_le(dst.offset)
}

/// The encoding of `mov dst, src`.
pub open spec fn enc_mov(src: Register, dst: Register) -> Seq<u8> {
    seq![
        rex_byte(true, spec_needs_extension(src), false, spec_needs_extension(dst)),
        0x89u8,
        modrm_byte(0b11, spec_encode(src), spec_encode(dst)),
    ]
}

/// The encoding of `push reg`.
pub open spec fn enc_push(reg: Register) -> Seq<u8> {
    (if spec_needs_extension(reg) {
        seq![rex_byte(false, false, false, true)]
    } else {
        Seq::<u8>::empty()
    }) + seq![(0x50u8 + spec_encode(reg)) as u8]
}

/// The encoding of `pop reg`.
pub open spec fn enc_pop(reg: Register) -> Seq<u8> {
    (if spec_needs_extension(reg) {
        seq![rex_byte(false, false, false, true)]
    } else {
        Seq::<u8>::empty()
    }) + seq![(0x58u8 + spec_encode(reg)) as u8]
}

/// The encoding of `add dst, src`.
pub open spec fn enc_add(src: Register, dst: Register) -> Seq<u8> {
    seq![
        rex_byte(true, spec_needs_extension(src), false, spec_needs_extension(dst)),
        0x01u8,
        modrm_byte(0b11, spec_encode(src), spec_encode(dst)),
    ]
}

/// The encoding of `add dst, imm`: the 8-bit short form when the value
/// fits, the `rax` fast path, or the general 32-bit form.
pub open spec fn enc_add_imm(src: Imm32, dst: Register) -> Seq<u8> {
    let rex = rex_byte(true, false, false, spec_needs_extension(dst));
    if i8::MIN <= src <= i8::MAX {
        seq![rex, 0x83u8, modrm_byte(0b11, 0, spec_encode(dst)), ((src as i8) as u8)]
    } else if dst == Register::Ax {
        seq![rex, 0x05u8] + i32_le(src)
    } else {
        seq![rex, 0x81u8, modrm_byte(0b11, 0, spec_encode(dst))] + i32_le(src)
    }
}

/// The encoding of `cmp src1, src2` (`39 /r` with `reg` = src2).
pub open spec fn enc_cmp(src1: Register, src2: Register) -> Seq<u8> {
    seq![
        rex_byte(true, spec_needs_extension(src2), false, spec_needs_extension(src1)),
        0x39u8,
        modrm_byte(0b11, spec_encode(src2), spec_encode(src1)),
    ]
}

/// Does `setl dst` need a REX prefix? Without one, codes 4..8 would pick
/// the legacy `AH`/`CH`/`DH`/`BH` high bytes instead of `SPL`..`DIL`.
pub open spec fn setl_needs_rex(dst: Register) -> bool {
    !(dst == Register::Ax || dst == Register::Cx || dst == Register::Bx || dst == Register::Dx)
}

/// The encoding of `setl dst`.
pub open spec fn enc_setl(dst: Register) -> Seq<u8> {
    (if setl_needs_rex(dst) {
        seq![rex_byte(false, false, false, spec_needs_extension(dst))]
    } else {
        Seq::<u8>::empty()
    }) + seq![0x0fu8, 0x9cu8, modrm_byte(0b11, 0, spec_encode(dst))]
}

/// The encoding of `dst = src1 < src2`. When `dst` aliases neither source
/// it is zeroed by `xor` before the compare; otherwise the compare comes
/// first and `dst` is zeroed by `mov dst, 0`, which leaves the flags alone
/// for the `setl` that follows.
pub open spec fn enc_set_if_less(src1: Register, src2: Register, dst: Register) -> Seq<u8> {
    (if dst != src1 && dst != src2 {
        enc_load_imm(true, 0, dst) + enc_cmp(src1, src2)
    } else {
        enc_cmp(src1, src2) + enc_load_imm(false, 0, dst)
    }) + enc_setl(dst)
}

/// The encoding of `jmp label`: `E9` and a four-byte placeholder that a
/// patch fills in.
pub open spec fn enc_jump() -> Seq<u8> {
    seq![0xe9u8] + u32_le(0)
}

/// The encoding of `cmp src, 0` followed by `je label`; the placeholder is
/// the last four bytes. The compare immediate is always 32-bit zero, even
/// on the `rax` fast path.
pub open spec fn enc_jump_if_zero(src: Register) -> Seq<u8> {
    seq![rex_byte(true, false, false, spec_needs_extension(src))]
        + (if src == Register::Ax {
        seq![0x3du8]
    } else {
        seq![0x81u8, modrm_byte(0b11, 7, spec_encode(src))]
    }) + u32_le(0) + seq![0x0fu8, 0x84u8] + u32_le(0)
}

/// The bytes emitted for one instruction kind, placeholders included.
pub open spec fn enc_kind(k: InstructionKind<Register>) -> Seq<u8> {
    match k {
        InstructionKind::LoadImm { src, dst } => enc_load_imm(true, src, dst),
        InstructionKind::LoadAddr { src, dst } => enc_load_addr(src, dst),
        InstructionKind::Store { src, dst } => enc_store(src, dst),
        InstructionKind::Mov { src, dst } => enc_mov(src, dst),
        InstructionKind::Push(reg) => enc_push(reg),
        InstructionKind::Pop(reg) => enc_pop(reg),
        InstructionKind::Add { src, dst } => enc_add(src, dst),
        InstructionKind::AddImm { src, dst } => enc_add_imm(src, dst),
        InstructionKind::SetIfLess { src1, src2, dst } => enc_set_if_less(src1, src2, dst),
        InstructionKind::Jump(_) => enc_jump(),
        InstructionKind::JumpIfZero { src, .. } => enc_jump_if_zero(src),
        InstructionKind::Return => seq![0xc3u8],
        InstructionKind::Call(target) => (if spec_needs_extension(target) {
            seq![rex_byte(false, false, false, true)]
        } else {
            Seq::<u8>::empty()
        }) + seq![0xffu8, modrm_byte(0b11, 2, spec_encode(target))],
        InstructionKind::Nop => Seq::empty(),
    }
}

/// A four-byte slot reserved for a relative label offset.
#[derive(Debug, Clone, Copy, PartialEq, Eq, Structural)]
pub struct Patch {
    pub label: Label,
    pub start: usize,
}

/// Errors the encoder can report.
#[derive(Debug, Clone, Copy, PartialEq, Eq, Structural)]
pub enum AssemblerError {
    /// A jump referenced a label that was never attached to an instruction.
    MissingLabelLocation(Label),
}

/// `bytes` with the four bytes at `start` replaced by `val`.
pub open spec fn write_four_at(bytes: Seq<u8>, start: int, val: Seq<u8>) -> Seq<u8> {
    Seq::new(bytes.len() as nat, |i: int| if start <= i < start + 4 {
        val[i - start]
    } else {
        bytes[i]
    })
}

/// The relative displacement a patch resolves to: the label location minus
/// the end of the patched slot.
pub open spec fn patch_disp(loc: usize, start: usize) -> i32 {
    ((loc as i32) - ((start + 4) as i32)) as i32
}

/// `bytes` with the patches applied in order, each slot filled with the
/// little-endian displacement to its label.
pub open spec fn apply_patches(
    bytes: Seq<u8>,
    patches: Seq<Patch>,
    locs: Seq<Option<usize>>,
) -> Seq<u8>
    decreases patches.len(),
{
    if patches.len() == 0 {
        bytes
    } else {
        let p = patches.last();
        let applied = apply_patches(bytes, patches.drop_last(), locs);
        if 0 <= p.label.0 < locs.len() && locs[p.label.0 as int] is Some {
            write_four_at(applied, p.start as int, i32_le(patch_disp(
                locs[p.label.0 as int]->Some_0,
                p.start,
            )))
        } else {
            applied
        }
    }
}

/// How many patches from the front have a resolved label location.
pub open spec fn resolved_prefix(patches: Seq<Patch>, locs: Seq<Option<usize>>) -> int
    decreases patches.len(),
{
    if patches.len() == 0 {
        0
    } else if 0 <= patches[0].label.0 < locs.len() && locs[patches[0].label.0 as int] is Some {
        1 + resolved_prefix(patches.drop_first(), locs)
    } else {
        0
    }
}

pub(crate) proof fn lemma_resolved_prefix(patches: Seq<Patch>, locs: Seq<Option<usize>>, k: int)
    requires
        0 <= k <= patches.len(),
        forall|j: int| 0 <= j < k ==> 0 <= (#[trigger] patches[j]).label.0 < locs.len()
            && locs[patches[j].label.0 as int] is Some,
        k < patches.len() ==> !(0 <= patches[k].label.0 < locs.len()
            && locs[patches[k].label.0 as int] is Some),
    ensures
        resolved_prefix(patches, locs) == k,
    decreases k,
{
    if k == 0 {
    } else {
        assert(patches[0].label.0 < locs.len() && locs[patches[0].label.0 as int] is Some);
        let rest = patches.drop_first();
        assert forall|j: int| 0 <= j < k - 1 implies 0 <= (#[trigger] rest[j]).label.0
            < locs.len() && locs[rest[j].label.0 as int] is Some by {
            assert(rest[j] == patches[j + 1]);
        }
        if k - 1 < rest.len() {
            assert(rest[k - 1] == patches[k]);
        }
        lemma_resolved_prefix(rest, locs, k - 1);
    }
}

/// Appending little-endian words.
fn push_u32_le(buf: &mut Vec<u8>, x: u32)
    ensures
        final(buf)@ == old(buf)@ + u32_le(x),
{
    buf.push((x & 0xff) as u8);
    buf.push(((x >> 8) & 0xff) as u8);
    buf.push(((x >> 16) & 0xff) as u8);
    buf.push(((x >> 24) & 0xff) as u8);
    proof {
        assert(buf@ =~= old(buf)@ + u32_le(x));
    }
}

fn push_u64_le(buf: &mut Vec<u8>, x: u64)
    ensures
        final(buf)@ == old(buf)@ + u64_le(x),
{
    buf.push((x & 0xff) as u8);
    buf.push(((x >> 8) & 0xff) as u8);
    buf.push(((x >> 16) & 0xff) as u8);
    buf.push(((x >> 24) & 0xff) as u8);
    buf.push(((x >> 32) & 0xff) as u8);
    buf.push(((x >> 40) & 0xff) as u8);
    buf.push(((x >> 48) & 0xff) as u8);
    buf.push(((x >> 56) & 0xff) as u8);
    proof {
        assert(buf@ =~= old(buf)@ + u64_le(x));
    }
}

/// Assembles one instruction after another into a byte buffer, recording
/// label locations and the patches that still need them.
pub struct Assembler {
    buf: Vec<u8>,
    label_locations: Vec<Option<usize>>,
    patches: Vec<Patch>,
}

impl Assembler {
    /// The bytes emitted so far.
    pub closed spec fn spec_buf(self) -> Seq<u8> {
        self.buf@
    }

    /// The location of each label, if its instruction was emitted.
    pub closed spec fn spec_locs(self) -> Seq<Option<usize>> {
        self.label_locations@
    }

    /// The patches recorded so far.
    pub closed spec fn spec_patches(self) -> Seq<Patch> {
        self.patches@
    }

    /// Every patch slot lies inside the buffer, every patch label and every
    /// recorded location is in range.
    pub open spec fn inv(self) -> bool {
        &&& forall|i: int| 0 <= i < self.spec_patches().len()
            ==> (#[trigger] self.spec_patches()[i]).label.0 < self.spec_locs().len()
                && self.spec_patches()[i].start + 4 <= self.spec_buf().len()
        &&& forall|i: int| 0 <= i < self.spec_locs().len()
            ==> ((#[trigger] self.spec_locs()[i]) is Some
                ==> self.spec_locs()[i]->Some_0 <= self.spec_buf().len())
    }

    /// An assembler with room for `nlabels` labels and nothing emitted.
    pub fn new(nlabels: usize) -> (r: Self)
        ensures
            r.inv(),
            r.spec_buf().len() == 0,
            r.spec_patches().len() == 0,
            r.spec_locs().len() == nlabels,
            forall|i: int| 0 <= i < nlabels ==> (#[trigger] r.spec_locs()[i]) is None,
    {
        let mut label_locations: Vec<Option<usize>> = Vec::with_capacity(nlabels);
        let mut i: usize = 0;
        while i < nlabels
            invariant
                0 <= i <= nlabels,
                label_locations@.len() == i,
                forall|j: int| 0 <= j < i ==> (#[trigger] label_locations@[j]) is None,
            decreases nlabels - i,
        {
            label_locations.push(None);
            i = i + 1;
        }
        Assembler { buf: Vec::new(), label_locations, patches: Vec::new() }
    }

    /// Record a patch for `label` at the current end of the buffer.
    fn add_patch(&mut self, label: Label)
        ensures
            final(self).patches@ == old(self).patches@.push(Patch {
                label,
                start: old(self).buf@.len() as usize,
            }),
            final(self).buf == old(self).buf,
            final(self).label_locations == old(self).label_locations,
    {
        let start = self.buf.len();
        self.patches.push(Patch { label, start });
    }

    fn assemble_load_imm(&mut self, optimize: bool, src: Imm64, dst: Register)
        ensures
            final(self).buf@ == old(self).buf@ + enc_load_imm(optimize, src, dst),
            final(self).label_locations == old(self).label_locations,
            final(self).patches == old(self).patches,
    {
        if optimize && src == 0 {
            // xor dst,dst
            if dst.needs_extension() {
                let rex_prefix = RexBuilder::new()
                    .set_w(false)
                    .set_r(true)
                    .set_x(false)
                    .set_b(true)
                    .finish();
                self.buf.push(rex_prefix);
            }
            let mod_rm = ModRmBuilder::new()
                .direct()
                .reg(dst.encode())
                .rm(dst.encode())
                .build();
            self.buf.push(0x31);
            self.buf.push(mod_rm);
            proof {
                assert(self.buf@ =~= old(self).buf@ + enc_load_imm(optimize, src, dst));
            }
        } else if src >= i32::MIN as i64 && src <= i32::MAX as i64 {
            // mov dst,imm32
            if dst.needs_extension() {
                let rex_prefix = RexBuilder::new()
                    .set_w(false)
                    .set_r(false)
                    .set_x(false)
                    .set_b(true)
                    .finish();
                self.buf.push(rex_prefix);
            }
            self.buf.push(0xb8 + dst.encode());
            push_u32_le(&mut self.buf, (src as i32) as u32);
            proof {
                assert(self.buf@ =~= old(self).buf@ + enc_load_imm(optimize, src, dst));
            }
        } else {
            // mov dst,imm64
            let rex_prefix = RexBuilder::new()
                .set_w(true)
                .set_r(false)
                .set_x(false)
                .set_b(dst.needs_extension())
                .finish();
            self.buf.push(rex_prefix);
            self.buf.push(0xb8 + dst.encode());
            push_u64_le(&mut self.buf, src as u64);
            proof {
                assert(self.buf@ =~= old(self).buf@ + enc_load_imm(optimize, src, dst));
            }
        }
    }

    fn assemble_load_addr(&mut self, src: Address<Imm32, Register>, dst: Register)
        ensures
            final(self).buf@ == old(self).buf@ + enc_load_addr(src, dst),
            final(self).label_locations == old(self).label_locations,
            final(self).patches == old(self).patches,
    {
        let rex_prefix = RexBuilder::new()
            .set_w(true)
            .set_r(dst.needs_extension())
            .set_x(false)
            .set_b(src.base.needs_extension())
            .finish();
        let mod_rm = ModRmBuilder::new()
            .displacement()
            .reg(dst.encode())
            .rm(src.base.encode())
            .build();
        self.buf.push(rex_prefix);
        self.buf.push(0x8b);
        self.buf.push(mod_rm);
        match src.base {
            Register::Sp | Register::R12 => {
                let sib = SibBuilder::new()
                    .scale(Scale::One)
                    .index(src.base)
                    .base(src.base)
                    .build();
                self.buf.push(sib);
            }
            _ => {}
        }
        push_u32_le(&mut self.buf, src.offset as u32);
        proof {
            assert(self.buf@ =~= old(self).buf@ + enc_load_addr(src, dst));
        }
    }

    fn assemble_store(&mut self, src: Register, dst: Address<Imm32, Register>)
        ensures
            final(self).buf@ == old(self).buf@ + enc_store(src, dst),
            final(self).label_locations == old(self).label_locations,
            final(self).patches == old(self).patches,
    {
        let rex_prefix = RexBuilder::new()
            .set_w(true)
            .set_r(dst.base.needs_extension())
            .set_x(false)
            .set_b(src.needs_extension())
            .finish();
        let mod_rm = ModRmBuilder::new()
            .displacement()
            .reg(dst.base.encode())
            .rm(src.encode())
            .build();
        self.buf.push(rex_prefix);
        self.buf.push(0x89);
        self.buf.push(mod_rm);
        match src {
            Register::Sp | Register::R12 => {
                let sib = SibBuilder::new()
                    .scale(Scale::One)
                    .index(src)
                    .base(src)
                    .build();
                self.buf.push(sib);
            }
            _ => {}
        }
        push_u32_le(&mut self.buf, dst.offset as u32);
        proof {
            assert(self.buf@ =~= old(self).buf@ + enc_store(src, dst));
        }
    }

    fn assemble_mov(&mut self, src: Register, dst: Register)
        ensures
            final(self).buf@ == old(self).buf@ + enc_mov(src, dst),
            final(self).label_locations == old(self).label_locations,
            final(self).patches == old(self).patches,
    {
        let rex_prefix = RexBuilder::new()
            .set_w(true)
            .set_r(src.needs_extension())
            .set_x(false)
            .set_b(dst.needs_extension())
            .finish();
        let mod_rm = ModRmBuilder::new()
            .direct()
            .reg(src.encode())
            .rm(dst.encode())
            .build();
        self.buf.push(rex_prefix);
        self.buf.push(0x89);
        self.buf.push(mod_rm);
        proof {
            assert(self.buf@ =~= old(self).buf@ + enc_mov(src, dst));
        }
    }

    fn assemble_push(&mut self, reg: Register)
        ensures
            final(self).buf@ == old(self).buf@ + enc_push(reg),
            final(self).label_locations == old(self).label_locations,
            final(self).patches == old(self).patches,
    {
        if reg.needs_extension() {
            let rex_prefix = RexBuilder::new()
                .set_w(false)
                .set_r(false)
                .set_x(false)
                .set_b(true)
                .finish();
            self.buf.push(rex_prefix);
        }
        self.buf.push(0x50 + reg.encode());
        proof {
            assert(self.buf@ =~= old(self).buf@ + enc_push(reg));
        }
    }

    fn assemble_pop(&mut self, reg: Register)
        ensures
            final(self).buf@ == old(self).buf@ + enc_pop(reg),
            final(self).label_locations == old(self).label_locations,
            final(self).patches == old(self).patches,
    {
        if reg.needs_extension() {
            let rex_prefix = RexBuilder::new()
                .set_w(false)
                .set_r(false)
                .set_x(false)
                .set_b(true)
                .finish();
            self.buf.push(rex_prefix);
        }
        self.buf.push(0x58 + reg.encode());
        proof {
            assert(self.buf@ =~= old(self).buf@ + enc_pop(reg));
        }
    }

    fn assemble_add(&mut self, src: Register, dst: Register)
        ensures
            final(self).buf@ == old(self).buf@ + enc_add(src, dst),
            final(self).label_locations == old(self).label_locations,
            final(self).patches == old(self).patches,
    {
        let rex_prefix = RexBuilder::new()
            .set_w(true)
            .set_r(src.needs_extension())
            .set_x(false)
            .set_b(dst.needs_extension())
            .finish();
        let mod_rm = ModRmBuilder::new()
            .direct()
            .reg(src.encode())
            .rm(dst.encode())
            .build();
        self.buf.push(rex_prefix);
        self.buf.push(0x01);
        self.buf.push(mod_rm);
        proof {
            assert(self.buf@ =~= old(self).buf@ + enc_add(src, dst));
        }
    }

    fn assemble_add_imm(&mut self, src: Imm32, dst: Register)
        ensures
            final(self).buf@ == old(self).buf@ + enc_add_imm(src, dst),
            final(self).label_locations == old(self).label_locations,
            final(self).patches == old(self).patches,
    {
        let rex_prefix = RexBuilder::new()
            .set_w(true)
            .set_r(false)
            .set_x(false)
            .set_b(dst.needs_extension())
            .finish();
        if src >= i8::MIN as i32 && src <= i8::MAX as i32 {
            // add dst,imm8
            let mod_rm = ModRmBuilder::new()
                .direct()
                .reg(0x0)
                .rm(dst.encode())
                .build();
            self.buf.push(rex_prefix);
            self.buf.push(0x83);
            self.buf.push(mod_rm);
            self.buf.push((src as i8) as u8);
            proof {
                assert(self.buf@ =~= old(self).buf@ + enc_add_imm(src, dst));
            }
        } else {
            match dst {
                Register::Ax => {
                    // add rax,imm32
                    self.buf.push(rex_prefix);
                    self.buf.push(0x05);
                    push_u32_le(&mut self.buf, src as u32);
                }
                _ => {
                    let mod_rm = ModRmBuilder::new()
                        .direct()
                        .reg(0x0)
                        .rm(dst.encode())
                        .build();
                    self.buf.push(rex_prefix);
                    self.buf.push(0x81);
                    self.buf.push(mod_rm);
                    push_u32_le(&mut self.buf, src as u32);
                }
            }
            proof {
                assert(self.buf@ =~= old(self).buf@ + enc_add_imm(src, dst));
            }
        }
    }

    fn assemble_cmp(&mut self, src1: Register, src2: Register)
        ensures
            final(self).buf@ == old(self).buf@ + enc_cmp(src1, src2),
            final(self).label_locations == old(self).label_locations,
            final(self).patches == old(self).patches,
    {
        let rex_prefix = RexBuilder::new()
            .set_w(true)
            .set_r(src2.needs_extension())
            .set_x(false)
            .set_b(src1.needs_extension())
            .finish();
        let mod_rm = ModRmBuilder::new()
            .direct()
            .reg(src2.encode())
            .rm(src1.encode())
            .build();
        self.buf.push(rex_prefix);
        self.buf.push(0x39);
        self.buf.push(mod_rm);
        proof {
            assert(self.buf@ =~= old(self).buf@ + enc_cmp(src1, src2));
        }
    }

    #[verifier::rlimit(100)]
    fn assemble_set_if(&mut self, src1: Register, src2: Register, dst: Register)
        ensures
            final(self).buf@ == old(self).buf@ + enc_set_if_less(src1, src2, dst),
            final(self).label_locations == old(self).label_locations,
            final(self).patches == old(self).patches,
    {
        let ghost first: Seq<u8>;
        if dst != src1 && dst != src2 {
            // xor dst,dst, then cmp src1,src2
            self.assemble_load_imm(true, 0, dst);
            self.assemble_cmp(src1, src2);
            proof {
                first = enc_load_imm(true, 0, dst) + enc_cmp(src1, src2);
                assert(self.buf@ =~= old(self).buf@ + first);
            }
        } else {
            // cmp src1,src2, then mov dst,0, which leaves the flags alone
            self.assemble_cmp(src1, src2);
            self.assemble_load_imm(false, 0, dst);
            proof {
                first = enc_cmp(src1, src2) + enc_load_imm(false, 0, dst);
                assert(self.buf@ =~= old(self).buf@ + first);
            }
        }
        // setl dst
        let needs_rex = match dst {
            Register::Ax | Register::Cx | Register::Bx | Register::Dx => false,
            _ => true,
        };
        if needs_rex {
            let rex_prefix = RexBuilder::new()
                .set_w(false)
                .set_r(false)
                .set_x(false)
                .set_b(dst.needs_extension())
                .finish();
            self.buf.push(rex_prefix);
        }
        let mod_rm = ModRmBuilder::new()
            .direct()
            .reg(0x0)
            .rm(dst.encode())
            .build();
        self.buf.push(0x0f);
        self.buf.push(0x9c);
        self.buf.push(mod_rm);
        proof {
            assert(self.buf@ =~= (old(self).buf@ + first) + enc_setl(dst));
            assert(enc_set_if_less(src1, src2, dst) == first + enc_setl(dst));
            assert((old(self).buf@ + first) + enc_setl(dst)
                =~= old(self).buf@ + (first + enc_setl(dst)));
        }
    }

    fn assemble_jump(&mut self, target: Label)
        ensures
            final(self).buf@ == old(self).buf@ + enc_jump(),
            final(self).label_locations == old(self).label_locations,
            final(self).patches@ == old(self).patches@.push(Patch {
                label: target,
                start: (old(self).buf@.len() + 1) as usize,
            }),
    {
        self.buf.push(0xe9);
        self.add_patch(target);
        push_u32_le(&mut self.buf, 0);
        proof {
            assert(self.buf@ =~= old(self).buf@ + enc_jump());
        }
    }

    fn assemble_jump_if_zero(&mut self, src: Register, target: Label)
        ensures
            final(self).buf@ == old(self).buf@ + enc_jump_if_zero(src),
            final(self).label_locations == old(self).label_locations,
            final(self).patches@ == old(self).patches@.push(Patch {
                label: target,
                start: (old(self).buf@.len() + enc_jump_if_zero(src).len() - 4) as usize,
            }),
    {
        let rex_prefix = RexBuilder::new()
            .set_w(true)
            .set_r(false)
            .set_x(false)
            .set_b(src.needs_extension())
            .finish();
        // cmp src,0x0
        match src {
            Register::Ax => {
                self.buf.push(rex_prefix);
                self.buf.push(0x3d);
            }
            _ => {
                let mod_rm = ModRmBuilder::new()
                    .direct()
                    .reg(0x7)
                    .rm(src.encode())
                    .build();
                self.buf.push(rex_prefix);
                self.buf.push(0x81);
                self.buf.push(mod_rm);
            }
        }
        push_u32_le(&mut self.buf, 0);
        // je target
        self.buf.push(0x0f);
        self.buf.push(0x84);
        self.add_patch(target);
        push_u32_le(&mut self.buf, 0);
        proof {
            assert(self.buf@ =~= old(self).buf@ + enc_jump_if_zero(src));
        }
    }

    fn assemble_return(&mut self)
        ensures
            final(self).buf@ == old(self).buf@ + seq![0xc3u8],
            final(self).label_locations == old(self).label_locations,
            final(self).patches == old(self).patches,
    {
        self.buf.push(0xc3);
        proof {
            assert(self.buf@ =~= old(self).buf@ + seq![0xc3u8]);
        }
    }

    fn assemble_call(&mut self, target: Register)
        ensures
            final(self).buf@ == old(self).buf@ + enc_kind(InstructionKind::Call(target)),
            final(self).label_locations == old(self).label_locations,
            final(self).patches == old(self).patches,
    {
        if target.needs_extension() {
            let rex_prefix = RexBuilder::new()
                .set_w(false)
                .set_r(false)
                .set_x(false)
                .set_b(true)
                .finish();
            self.buf.push(rex_prefix);
        }
        let mod_rm = ModRmBuilder::new()
            .direct()
            .reg(0x2)
            .rm(target.encode())
            .build();
        self.buf.push(0xff);
        self.buf.push(mod_rm);
        proof {
            assert(self.buf@ =~= old(self).buf@ + enc_kind(InstructionKind::Call(target)));
        }
    }

    /// Assemble one instruction: record its label location, if it carries
    /// one, then append its encoding and any patch it needs.
    ///
    /// If the instruction has a label, a previous location of that label is
    /// overwritten.
    pub fn assemble_instruction(&mut self, instruction: Instruction<Register>)
        requires
            old(self).inv(),
            instruction_label_wf(instruction, old(self).spec_locs().len() as int),
        ensures
            final(self).inv(),
            final(self).spec_buf()
                == old(self).spec_buf() + enc_kind(instruction.kind),
            final(self).spec_locs() == (match instruction.label {
                Some(l) => old(self).spec_locs().update(
                    l.0 as int,
                    Some(old(self).spec_buf().len() as usize),
                ),
                None => old(self).spec_locs(),
            }),
            final(self).spec_patches() == (match instruction.kind {
                InstructionKind::Jump(l) => old(self).spec_patches().push(Patch {
                    label: l,
                    start: (old(self).spec_buf().len() + 1) as usize,
                }),
                InstructionKind::JumpIfZero { src, target } => old(self).spec_patches().push(
                    Patch {
                        label: target,
                        start: (old(self).spec_buf().len() + enc_jump_if_zero(src).len()
                            - 4) as usize,
                    },
                ),
                _ => old(self).spec_patches(),
            }),
    {
        match instruction.label {
            Some(label) => {
                let here = self.buf.len();
                let slot = &mut self.label_locations[label.0];
                *slot = Some(here);
            }
            None => {}
        }
        match instruction.kind {
            InstructionKind::LoadImm { src, dst } => self.assemble_load_imm(true, src, dst),
            InstructionKind::LoadAddr { src, dst } => self.assemble_load_addr(src, dst),
            InstructionKind::Store { src, dst } => self.assemble_store(src, dst),
            InstructionKind::Mov { src, dst } => self.assemble_mov(src, dst),
            InstructionKind::Push(reg) => self.assemble_push(reg),
            InstructionKind::Pop(reg) => self.assemble_pop(reg),
            InstructionKind::Add { src, dst } => self.assemble_add(src, dst),
            InstructionKind::AddImm { src, dst } => self.assemble_add_imm(src, dst),
            InstructionKind::SetIfLess { src1, src2, dst } => {
                self.assemble_set_if(src1, src2, dst)
            }
            InstructionKind::Jump(target) => self.assemble_jump(target),
            InstructionKind::JumpIfZero { src, target } => {
                self.assemble_jump_if_zero(src, target)
            }
            InstructionKind::Return => self.assemble_return(),
            InstructionKind::Call(target) => self.assemble_call(target),
            InstructionKind::Nop => {}
        }
        proof {
            assert(old(self).spec_buf().len() <= self.spec_buf().len());
            assert forall|i: int| 0 <= i < self.spec_patches().len()
                implies (#[trigger] self.spec_patches()[i]).label.0 < self.spec_locs().len()
                    && self.spec_patches()[i].start + 4 <= self.spec_buf().len() by {
                if i < old(self).spec_patches().len() {
                    assert(self.spec_patches()[i] == old(self).spec_patches()[i]);
                }
            }
            assert forall|i: int| 0 <= i < self.spec_locs().len()
                implies ((#[trigger] self.spec_locs()[i]) is Some
                    ==> self.spec_locs()[i]->Some_0 <= self.spec_buf().len()) by {
                if self.spec_locs()[i] is Some {
                    if old(self).spec_locs()[i] is Some
                        && self.spec_locs()[i] == old(self).spec_locs()[i] {
                        assert(old(self).spec_locs()[i]->Some_0
                            <= old(self).spec_buf().len());
                    }
                }
            }
        }
    }

    /// Resolve every patch: write `label_location - (start + 4)` into its
    /// four-byte slot, little-endian. Reports the first patch whose label
    /// was never located.
    pub fn finish(&mut self) -> (r: Result<(), AssemblerError>)
        requires
            old(self).inv(),
            old(self).spec_buf().len() <= i32::MAX,
        ensures
            final(self).inv(),
            final(self).spec_locs() == old(self).spec_locs(),
            final(self).spec_patches() == old(self).spec_patches(),
            final(self).spec_buf() == apply_patches(
                old(self).spec_buf(),
                old(self).spec_patches().subrange(
                    0,
                    resolved_prefix(old(self).spec_patches(), old(self).spec_locs()),
                ),
                old(self).spec_locs(),
            ),
            (r is Ok) <==> resolved_prefix(old(self).spec_patches(), old(self).spec_locs())
                == old(self).spec_patches().len(),
            (r is Err) ==> r == Result::<(), AssemblerError>::Err(
                AssemblerError::MissingLabelLocation(
                    old(self).spec_patches()[resolved_prefix(
                        old(self).spec_patches(),
                        old(self).spec_locs(),
                    )].label,
                ),
            ),
    {
        let n = self.patches.len();
        let mut i: usize = 0;
        while i < n
            invariant
                old(self).inv(),
                n == old(self).patches@.len(),
                self.patches@ == old(self).patches@,
                self.label_locations@ == old(self).label_locations@,
                self.buf@.len() == old(self).buf@.len(),
                old(self).buf@.len() <= i32::MAX,
                0 <= i <= n,
                forall|j: int| 0 <= j < i ==> (#[trigger] old(self).label_locations@[
                    old(self).patches@[j].label.0 as int
                ]) is Some,
                self.buf@ == apply_patches(
                    old(self).buf@,
                    old(self).patches@.subrange(0, i as int),
                    old(self).label_locations@,
                ),
            decreases n - i,
        {
            let patch = self.patches[i];
            proof {
                assert(old(self).spec_patches()[i as int].label.0
                    < old(self).spec_locs().len());
                assert(old(self).spec_patches()[i as int].start + 4
                    <= old(self).spec_buf().len());
            }
            let loc_opt = self.label_locations[patch.label.0];
            match loc_opt {
                None => {
                    proof {
                        assert forall|j: int| 0 <= j < i implies
                            0 <= (#[trigger] old(self).patches@[j]).label.0
                                < old(self).label_locations@.len()
                            && old(self).label_locations@[
                                old(self).patches@[j].label.0 as int] is Some by {
                            assert(old(self).spec_patches()[j].label.0
                                < old(self).spec_locs().len());
                        }
                        lemma_resolved_prefix(
                            old(self).patches@,
                            old(self).label_locations@,
                            i as int,
                        );
                    }
                    return Err(AssemblerError::MissingLabelLocation(patch.label));
                }
                Some(loc) => {
                    let disp: i32 = (loc as i32) - ((patch.start + 4) as i32);
                    let bytes_val: u32 = disp as u32;
                    let ghost pre_buf = self.buf@;
                    let slot0 = &mut self.buf[patch.start];
                    *slot0 = (bytes_val & 0xff) as u8;
                    let slot1 = &mut self.buf[patch.start + 1];
                    *slot1 = ((bytes_val >> 8) & 0xff) as u8;
                    let slot2 = &mut self.buf[patch.start + 2];
                    *slot2 = ((bytes_val >> 16) & 0xff) as u8;
                    let slot3 = &mut self.buf[patch.start + 3];
                    *slot3 = ((bytes_val >> 24) & 0xff) as u8;
                    proof {
                        assert(self.buf@ =~= write_four_at(
                            pre_buf,
                            patch.start as int,
                            i32_le(patch_disp(loc, patch.start)),
                        ));
                        let sub = old(self).patches@.subrange(0, i + 1);
                        assert(sub.drop_last() =~= old(self).patches@.subrange(0, i as int));
                        assert(sub.last() == patch);
                    }
                }
            }
            i = i + 1;
        }
        proof {
            assert forall|j: int| 0 <= j < n implies
                0 <= (#[trigger] old(self).patches@[j]).label.0
                    < old(self).label_locations@.len()
                && old(self).label_locations@[
                    old(self).patches@[j].label.0 as int] is Some by {
                assert(old(self).spec_patches()[j].label.0 < old(self).spec_locs().len());
            }
            lemma_resolved_prefix(old(self).patches@, old(self).label_locations@, n as int);
            assert(old(self).patches@.subrange(0, n as int) =~= old(self).patches@);
        }
        Ok(())
    }
}

/// The bytes of `instructions` before patching.
pub open spec fn program_bytes(s: Seq<Instruction<Register>>) -> Seq<u8>
    decreases s.len(),
{
    if s.len() == 0 {
        Seq::empty()
    } else {
        program_bytes(s.drop_last()) + enc_kind(s.last().kind)
    }
}

/// Where each of `nlabels` labels ends up: the byte offset of the last
/// instruction carrying it, if any.
pub open spec fn program_locs(s: Seq<Instruction<Register>>, nlabels: int) -> Seq<Option<usize>>
    decreases s.len(),
{
    if s.len() == 0 {
        Seq::new(nlabels as nat, |i: int| None)
    } else {
        let prev = program_locs(s.drop_last(), nlabels);
        match s.last().label {
            Some(l) => prev.update(l.0 as int, Some(program_bytes(s.drop_last()).len() as usize)),
            None => prev,
        }
    }
}

/// The patches of `instructions`, in emission order.
pub open spec fn program_patches(s: Seq<Instruction<Register>>) -> Seq<Patch>
    decreases s.len(),
{
    if s.len() == 0 {
        Seq::empty()
    } else {
        let prev = program_patches(s.drop_last());
        let base = program_bytes(s.drop_last()).len();
        match s.last().kind {
            InstructionKind::Jump(l) => prev.push(Patch { label: l, start: (base + 1) as usize }),
            InstructionKind::JumpIfZero { src, target } => prev.push(Patch {
                label: target,
                start: (base + enc_jump_if_zero(src).len() - 4) as usize,
            }),
            _ => prev,
        }
    }
}

/// Are all of the program's jump targets attached to some instruction?
pub open spec fn program_patches_ok(s: Seq<Instruction<Register>>, nlabels: int) -> bool {
    resolved_prefix(program_patches(s), program_locs(s, nlabels))
        == program_patches(s).len()
}

/// The final machine code of `instructions`: its bytes with every resolved
/// patch applied.
pub open spec fn program_code(s: Seq<Instruction<Register>>, nlabels: int) -> Seq<u8> {
    apply_patches(
        program_bytes(s),
        program_patches(s).subrange(0, resolved_prefix(program_patches(s), program_locs(s, nlabels))),
        program_locs(s, nlabels),
    )
}

/// Assemble the whole instruction list into `buf`.
///
/// On success the bytes appended to `buf` are exactly `program_code` of the
/// list; the error names the first jump target never attached to an
/// instruction, and the unpatched tail of the code is still appended.
pub fn assemble(
    instructions: Instructions<Register>,
    buf: &mut Vec<u8>,
) -> (r: Result<(), AssemblerError>)
    requires
        instructions.wf(),
        instructions@.len() * 16 <= i32::MAX,
    ensures
        final(buf)@ == old(buf)@ + program_code(instructions@, instructions.spec_labels_len()),
        (r is Ok) <==> program_patches_ok(instructions@, instructions.spec_labels_len()),
        (r is Err) ==> r == Result::<(), AssemblerError>::Err(
            AssemblerError::MissingLabelLocation(
                program_patches(instructions@)[resolved_prefix(
                    program_patches(instructions@),
                    program_locs(instructions@, instructions.spec_labels_len()),
                )].label,
            ),
        ),
{
    let n = instructions.len();
    let nlabels = instructions.labels_len();
    let mut encoder = Assembler::new(nlabels);
    proof {
        lemma_enc_kind_len(instructions@, 0);
        assert(encoder.spec_buf() =~= program_bytes(instructions@.subrange(0, 0)));
        assert(encoder.spec_locs() =~= program_locs(
            instructions@.subrange(0, 0),
            instructions.spec_labels_len(),
        ));
        assert(encoder.spec_patches() =~= program_patches(instructions@.subrange(0, 0)));
    }
    let mut i: usize = 0;
    while i < n
        invariant
            instructions.wf(),
            n == instructions@.len(),
            nlabels as int == instructions.spec_labels_len(),
            instructions@.len() * 16 <= i32::MAX,
            0 <= i <= n,
            encoder.inv(),
            encoder.spec_locs().len() == nlabels,
            encoder.spec_buf() == program_bytes(instructions@.subrange(0, i as int)),
            encoder.spec_buf().len() <= i as int * 16,
            encoder.spec_locs() == program_locs(
                instructions@.subrange(0, i as int),
                instructions.spec_labels_len(),
            ),
            encoder.spec_patches() == program_patches(instructions@.subrange(0, i as int)),
        decreases n - i,
    {
        let ins = *instructions.at(i);
        proof {
            assert(instruction_label_wf(instructions@[i as int], instructions.spec_labels_len()));
        }
        encoder.assemble_instruction(ins);
        proof {
            let pre = instructions@.subrange(0, i as int);
            let cur = instructions@.subrange(0, i + 1);
            assert(cur.drop_last() =~= pre);
            assert(cur.last() == instructions@[i as int]);
            lemma_enc_kind_len(instructions@, i as int);
            assert(encoder.spec_buf() =~= program_bytes(cur));
            assert(encoder.spec_locs() =~= program_locs(cur, instructions.spec_labels_len()));
            assert(encoder.spec_patches() =~= program_patches(cur));
        }
        i = i + 1;
    }
    proof {
        assert(instructions@.subrange(0, n as int) =~= instructions@);
    }
    let r = encoder.finish();
    let code = encoder.emit_code();
    let mut j: usize = 0;
    let codelen = code.len();
    let ghost pre_out = buf@;
    while j < codelen
        invariant
            codelen == code@.len(),
            0 <= j <= codelen,
            buf@ == pre_out + code@.subrange(0, j as int),
        decreases codelen - j,
    {
        let byte = code[j];
        buf.push(byte);
        proof {
            assert(buf@ =~= pre_out + code@.subrange(0, j + 1));
        }
        j = j + 1;
    }
    proof {
        assert(code@.subrange(0, codelen as int) =~= code@);
    }
    r
}

/// Each instruction encodes to at most 16 bytes.
proof fn lemma_enc_kind_len(s: Seq<Instruction<Register>>, i: int)
    ensures
        0 <= i < s.len() ==> enc_kind(s[i].kind).len() <= 16,
{
    if 0 <= i < s.len() {
        reveal_enc_len(s[i].kind);
    }
}

proof fn reveal_enc_len(k: InstructionKind<Register>)
    ensures
        enc_kind(k).len() <= 16,
{
    match k {
        InstructionKind::SetIfLess { src1, src2, dst } => {
            assert(enc_load_imm(true, 0, dst).len() <= 3);
            assert(enc_load_imm(false, 0, dst).len() <= 6);
            assert(enc_cmp(src1, src2).len() == 3);
            assert(enc_setl(dst).len() <= 4);
        }
        _ => {}
    }
}

impl Assembler {
    /// Hand back the assembled bytes.
    pub fn emit_code(self) -> (r: Vec<u8>)
        ensures
            r@ == self.spec_buf(),
    {
        self.buf
    }
}

} // verus!
