//! The mid-level intermediate representation: a control-flow graph of basic
//! blocks holding three-address assignments and branching terminators.
//!
//! A [`Function`] is built through [`FunctionBuilder`], which allocates block
//! and local identifiers and lets each block be populated exactly once.
//! `finish` derives the predecessor and successor maps from the terminators,
//! keeping both as sorted, duplicate-free sequences, and adds the two
//! synthetic blocks: `entry`, a virtual predecessor of block 0, and `exit`, a
//! virtual successor of every `Return`-terminated block.

use vstd::prelude::*;

use crate::index::{Index, IndexMap};

verus! {

/// Identifier of an SSA (or pre-SSA) value, dense and small-integer-backed.
#[derive(Debug, Clone, Copy, PartialEq, Eq, Structural)]
pub struct Local(pub usize);

impl Index for Local {
    open spec fn as_int(self) -> int {
        self.0 as int
    }

    fn new(index: usize) -> (r: Self) {
        Local(index)
    }

    fn index(self) -> (r: usize) {
        self.0
    }
}

/// Identifier of a basic block, dense.
#[derive(Debug, Clone, Copy, PartialEq, Eq, Structural)]
pub struct BasicBlockId(pub usize);

impl Index for BasicBlockId {
    open spec fn as_int(self) -> int {
        self.0 as int
    }

    fn new(index: usize) -> (r: Self) {
        BasicBlockId(index)
    }

    fn index(self) -> (r: usize) {
        self.0
    }
}

/// The type of a local or literal.
#[derive(Debug, Clone, Copy, PartialEq, Eq, Structural)]
pub enum Ty {
    Int,
    Bool,
}

/// A typed 32-bit constant.
#[derive(Debug, Clone, Copy, PartialEq, Eq, Structural)]
pub struct Literal {
    pub data: u32,
    pub ty: Ty,
}

/// Either a local or a constant.
#[derive(Debug, Clone, Copy, PartialEq, Eq, Structural)]
pub enum Operand {
    Local(Local),
    Constant(Literal),
}

/// A binary operator.
#[derive(Debug, Clone, Copy, PartialEq, Eq, Structural)]
pub enum BinOp {
    Add,
    Lt,
}

/// The right-hand side of an assignment.
///
/// A `Phi` appears only at the head of a block, one entry per predecessor.
#[derive(Debug, Clone, PartialEq)]
pub enum Rvalue {
    Use(Operand),
    BinaryOp { op: BinOp, lhs: Operand, rhs: Operand },
    Phi(Vec<(BasicBlockId, Local)>),
}

/// One statement of a block. `Nop` is what dead-code elimination leaves
/// behind; encoders skip it.
#[derive(Debug, Clone, PartialEq)]
pub enum Statement {
    Assign { lhs: Local, rhs: Rvalue },
    Nop,
}

/// The sole exit of a block.
#[derive(Debug, Clone, Copy, PartialEq, Eq, Structural)]
pub enum Terminator {
    Jump(BasicBlockId),
    JumpIf { cond: Operand, then_bb: BasicBlockId, else_bb: BasicBlockId },
    Return(Local),
}

/// An ordered sequence of statements followed by exactly one terminator.
#[derive(Debug, Clone, PartialEq)]
pub struct BasicBlock {
    pub statements: Vec<Statement>,
    pub terminator: Terminator,
}

/// Does `b` appear in `s`?
pub open spec fn id_in(s: Seq<BasicBlockId>, b: BasicBlockId) -> bool {
    exists|i: int| 0 <= i < s.len() && s[i] == b
}

/// Is `s` strictly sorted (hence duplicate-free)?
pub open spec fn sorted_ids(s: Seq<BasicBlockId>) -> bool {
    forall|i: int, j: int| 0 <= i < j < s.len() ==> (#[trigger] s[i]).0 < (#[trigger] s[j]).0
}

/// Does the terminator `t` of some block lead to `b`, where a `Return` leads
/// to the synthetic block `exit`?
pub open spec fn term_leads_to(t: Terminator, exit: BasicBlockId, b: BasicBlockId) -> bool {
    match t {
        Terminator::Jump(x) => b == x,
        Terminator::JumpIf { then_bb, else_bb, .. } => b == then_bb || b == else_bb,
        Terminator::Return(_) => b == exit,
    }
}

/// Is every local mentioned by `o` below `nlocals`?
pub open spec fn operand_wf(o: Operand, nlocals: int) -> bool {
    match o {
        Operand::Local(l) => l.0 < nlocals,
        Operand::Constant(_) => true,
    }
}

/// Is every local and block mentioned by `r` in bounds?
pub open spec fn rvalue_wf(r: Rvalue, nlocals: int, nblocks: int) -> bool {
    match r {
        Rvalue::Use(o) => operand_wf(o, nlocals),
        Rvalue::BinaryOp { lhs, rhs, .. } => operand_wf(lhs, nlocals) && operand_wf(rhs, nlocals),
        Rvalue::Phi(entries) => forall|i: int| 0 <= i < entries@.len()
            ==> (#[trigger] entries@[i]).0.0 < nblocks + 2 && entries@[i].1.0 < nlocals,
    }
}

/// Is every local and block mentioned by `s` in bounds?
pub open spec fn stmt_wf(s: Statement, nlocals: int, nblocks: int) -> bool {
    match s {
        Statement::Assign { lhs, rhs } => lhs.0 < nlocals && rvalue_wf(rhs, nlocals, nblocks),
        Statement::Nop => true,
    }
}

/// Is every local and block mentioned by `t` in bounds?
pub open spec fn term_wf(t: Terminator, nlocals: int, nblocks: int) -> bool {
    match t {
        Terminator::Jump(b) => b.0 < nblocks,
        Terminator::JumpIf { cond, then_bb, else_bb } => operand_wf(cond, nlocals)
            && then_bb.0 < nblocks && else_bb.0 < nblocks,
        Terminator::Return(l) => l.0 < nlocals,
    }
}

/// Is every local and block mentioned by `b` in bounds?
pub open spec fn block_wf(b: BasicBlock, nlocals: int, nblocks: int) -> bool {
    &&& forall|i: int| 0 <= i < b.statements@.len()
        ==> stmt_wf(#[trigger] b.statements@[i], nlocals, nblocks)
    &&& term_wf(b.terminator, nlocals, nblocks)
}

/// A function: a control-flow graph plus its locals.
///
/// `preds` and `succs` are indexed by every block id, the synthetic `entry`
/// and `exit` included, and hold sorted, duplicate-free sequences consistent
/// with the terminators.
pub struct Function {
    pub arity: usize,
    pub locals: IndexMap<Local, Ty>,
    pub blocks: IndexMap<BasicBlockId, BasicBlock>,
    pub preds: IndexMap<BasicBlockId, Vec<BasicBlockId>>,
    pub succs: IndexMap<BasicBlockId, Vec<BasicBlockId>>,
    pub entry: BasicBlockId,
    pub exit: BasicBlockId,
}

impl Function {
    /// The number of real (non-synthetic) blocks.
    pub open spec fn n(self) -> int {
        self.blocks@.len() as int
    }

    /// Is `p -> b` an edge of the graph, the synthetic `entry -> 0` edge and
    /// the `Return -> exit` edges included?
    pub open spec fn edge(self, p: BasicBlockId, b: BasicBlockId) -> bool {
        ||| (p == self.entry && b == BasicBlockId(0) && self.n() > 0)
        ||| (p.0 < self.n() && term_leads_to(self.blocks@[p.0 as int].terminator, self.exit, b))
    }

    /// Structural well-formedness: identifier bounds, and predecessor and
    /// successor maps that are sorted, duplicate-free and consistent with the
    /// terminators.
    pub open spec fn wf(self) -> bool {
        &&& self.n() >= 1
        &&& self.locals@.len() >= 1
        &&& self.arity <= self.locals@.len()
        &&& self.entry.0 == self.n()
        &&& self.exit.0 == self.n() + 1
        &&& self.preds@.len() == self.n() + 2
        &&& self.succs@.len() == self.n() + 2
        &&& forall|i: int| 0 <= i < self.n()
            ==> block_wf(#[trigger] self.blocks@[i], self.locals@.len() as int, self.n())
        &&& forall|i: int| 0 <= i < self.preds@.len() ==> sorted_ids((#[trigger] self.preds@[i])@)
        &&& forall|i: int| 0 <= i < self.succs@.len() ==> sorted_ids((#[trigger] self.succs@[i])@)
        &&& forall|p: BasicBlockId, b: BasicBlockId|
            #![trigger id_in(self.succs@[p.0 as int]@, b)]
            #![trigger self.edge(p, b)]
            p.0 < self.n() + 2 && b.0 < self.n() + 2
                ==> (id_in(self.succs@[p.0 as int]@, b) <==> self.edge(p, b))
        &&& forall|p: BasicBlockId, b: BasicBlockId|
            #![trigger id_in(self.preds@[b.0 as int]@, p)]
            #![trigger self.edge(p, b)]
            p.0 < self.n() + 2 && b.0 < self.n() + 2
                ==> (id_in(self.preds@[b.0 as int]@, p) <==> self.edge(p, b))
        &&& forall|p: int, b: int| 0 <= p < self.n() + 2 && 0 <= b < self.preds@[p]@.len()
            ==> (#[trigger] self.preds@[p]@[b]).0 < self.n() + 2
        &&& forall|p: int, b: int| 0 <= p < self.n() + 2 && 0 <= b < self.succs@[p]@.len()
            ==> (#[trigger] self.succs@[p]@[b]).0 < self.n() + 2
    }

    /// Start building a function with `arity` parameters.
    pub fn builder(arity: usize) -> (r: FunctionBuilder)
        ensures
            r.spec_arity() == arity,
            r.spec_locals().len() == 0,
            r.spec_blocks().len() == 0,
    {
        FunctionBuilder {
            arity,
            locals: IndexMap::new(),
            blocks: IndexMap::new(),
        }
    }
}

/// Builds a [`Function`]: allocates block and local identifiers, lets each
/// block be populated, and finally derives the predecessor and successor maps.
pub struct FunctionBuilder {
    arity: usize,
    locals: IndexMap<Local, Ty>,
    blocks: IndexMap<BasicBlockId, Option<BasicBlock>>,
}

impl FunctionBuilder {
    /// The arity the builder was started with.
    pub closed spec fn spec_arity(self) -> int {
        self.arity as int
    }

    /// The types of the locals allocated so far.
    pub closed spec fn spec_locals(self) -> Seq<Ty> {
        self.locals@
    }

    /// The blocks allocated so far, populated or not.
    pub closed spec fn spec_blocks(self) -> Seq<Option<BasicBlock>> {
        self.blocks@
    }

    /// Allocate a fresh, unpopulated block.
    pub fn add_block(&mut self) -> (r: BasicBlockId)
        ensures
            r.0 == old(self).spec_blocks().len(),
            final(self).spec_blocks() == old(self).spec_blocks().push(None),
            final(self).spec_locals() == old(self).spec_locals(),
            final(self).spec_arity() == old(self).spec_arity(),
    {
        self.blocks.push(None)
    }

    /// Allocate a fresh local of type `ty`.
    pub fn add_local(&mut self, ty: Ty) -> (r: Local)
        ensures
            r.0 == old(self).spec_locals().len(),
            final(self).spec_locals() == old(self).spec_locals().push(ty),
            final(self).spec_blocks() == old(self).spec_blocks(),
            final(self).spec_arity() == old(self).spec_arity(),
    {
        self.locals.push(ty)
    }

    /// Borrow the slot of block `bb` to populate it.
    pub fn block_mut(&mut self, bb: BasicBlockId) -> (r: &mut Option<BasicBlock>)
        requires
            bb.0 < old(self).spec_blocks().len(),
        ensures
            *r == old(self).spec_blocks()[bb.0 as int],
            final(self).spec_blocks()
                == old(self).spec_blocks().update(bb.0 as int, *final(r)),
            final(self).spec_locals() == old(self).spec_locals(),
            final(self).spec_arity() == old(self).spec_arity(),
    {
        self.blocks.get_mut(bb)
    }

    /// Finish the function: unwrap every block and compute `preds`, `succs`,
    /// `entry` and `exit` from the terminators.
    pub fn finish(self) -> (r: Function)
        requires
            self.spec_blocks().len() + 2 <= usize::MAX,
            self.spec_blocks().len() >= 1,
            self.spec_locals().len() >= 1,
            self.spec_arity() <= self.spec_locals().len(),
            forall|i: int| 0 <= i < self.spec_blocks().len()
                ==> (#[trigger] self.spec_blocks()[i]) is Some,
            forall|i: int| 0 <= i < self.spec_blocks().len()
                ==> block_wf(
                    (#[trigger] self.spec_blocks()[i])->Some_0,
                    self.spec_locals().len() as int,
                    self.spec_blocks().len() as int,
                ),
        ensures
            r.wf(),
            r.arity == self.spec_arity(),
            r.locals@ == self.spec_locals(),
            r.blocks@.len() == self.spec_blocks().len(),
            forall|i: int| 0 <= i < r.blocks@.len()
                ==> #[trigger] r.blocks@[i] == self.spec_blocks()[i]->Some_0,
    {
        let FunctionBuilder { arity, locals, blocks: opt_blocks } = self;
        let mut opts: Vec<Option<BasicBlock>> = opt_blocks.into_inner();
        let n = opts.len();
        let mut blocks: IndexMap<BasicBlockId, BasicBlock> = IndexMap::with_capacity(n);
        let mut i: usize = 0;
        while i < n
            invariant
                n == self.spec_blocks().len(),
                0 <= i <= n,
                blocks@.len() == i,
                opts@ == self.spec_blocks().subrange(i as int, n as int),
                forall|j: int| 0 <= j < n ==> (#[trigger] self.spec_blocks()[j]) is Some,
                forall|j: int| 0 <= j < i
                    ==> #[trigger] blocks@[j] == self.spec_blocks()[j]->Some_0,
            decreases n - i,
        {
            let ghost opts0 = opts@;
            let bb = opts.remove(0);
            proof {
                assert(opts0[0] == self.spec_blocks()[i as int]);
                assert(opts@ =~= self.spec_blocks().subrange(i + 1, n as int));
            }
            match bb {
                Some(data) => {
                    blocks.push(data);
                    proof {
                        assert(blocks@[i as int] == self.spec_blocks()[i as int]->Some_0);
                    }
                }
                None => {
                    proof {
                        assert(false);
                    }
                }
            }
            i = i + 1;
        }

        let entry = BasicBlockId(n);
        let exit = BasicBlockId(n + 1);

        let mut preds: IndexMap<BasicBlockId, Vec<BasicBlockId>> =
            IndexMap::with_capacity(n + 2);
        let mut succs: IndexMap<BasicBlockId, Vec<BasicBlockId>> =
            IndexMap::with_capacity(n + 2);
        let mut k: usize = 0;
        while k < n + 2
            invariant
                n + 2 <= usize::MAX,
                0 <= k <= n + 2,
                preds@.len() == k,
                succs@.len() == k,
                forall|j: int| 0 <= j < k ==> (#[trigger] preds@[j])@.len() == 0,
                forall|j: int| 0 <= j < k ==> (#[trigger] succs@[j])@.len() == 0,
            decreases n + 2 - k,
        {
            preds.push(Vec::new());
            succs.push(Vec::new());
            k = k + 1;
        }

        let mut func = Function { arity, locals, blocks, preds, succs, entry, exit };

        // The synthetic edge `entry -> 0`.
        add_edge(&mut func, entry, BasicBlockId(0));

        let mut p: usize = 0;
        while p < n
            invariant
                func.blocks@.len() == n,
                n >= 1,
                func.entry == entry,
                func.exit == exit,
                entry.0 == n,
                exit.0 == n + 1,
                func.preds@.len() == n + 2,
                func.succs@.len() == n + 2,
                0 <= p <= n,
                func.arity == self.spec_arity(),
                func.locals@ == self.spec_locals(),
                forall|j: int| 0 <= j < n
                    ==> #[trigger] func.blocks@[j] == self.spec_blocks()[j]->Some_0,
                forall|j: int| 0 <= j < n ==> (#[trigger] self.spec_blocks()[j]) is Some,
                forall|j: int| 0 <= j < n
                    ==> block_wf(
                        (#[trigger] self.spec_blocks()[j])->Some_0,
                        self.spec_locals().len() as int,
                        n as int,
                    ),
                forall|i2: int| 0 <= i2 < n + 2 ==> sorted_ids((#[trigger] func.preds@[i2])@),
                forall|i2: int| 0 <= i2 < n + 2 ==> sorted_ids((#[trigger] func.succs@[i2])@),
                forall|pp: BasicBlockId, b: BasicBlockId|
                    #![trigger id_in(func.succs@[pp.0 as int]@, b)]
                    #![trigger edge_upto(func, p as int, pp, b)]
                    pp.0 < n + 2 && b.0 < n + 2
                        ==> (id_in(func.succs@[pp.0 as int]@, b)
                            <==> edge_upto(func, p as int, pp, b)),
                forall|pp: BasicBlockId, b: BasicBlockId|
                    #![trigger id_in(func.preds@[b.0 as int]@, pp)]
                    #![trigger edge_upto(func, p as int, pp, b)]
                    pp.0 < n + 2 && b.0 < n + 2
                        ==> (id_in(func.preds@[b.0 as int]@, pp)
                            <==> edge_upto(func, p as int, pp, b)),
                forall|i2: int, j: int| 0 <= i2 < n + 2 && 0 <= j < func.preds@[i2]@.len()
                    ==> (#[trigger] func.preds@[i2]@[j]).0 < n + 2,
                forall|i2: int, j: int| 0 <= i2 < n + 2 && 0 <= j < func.succs@[i2]@.len()
                    ==> (#[trigger] func.succs@[i2]@[j]).0 < n + 2,
            decreases n - p,
        {
            let source = BasicBlockId(p);
            let term = func.blocks.at(source).terminator;
            let ghost pre = func;
            match term {
                Terminator::Jump(t) => {
                    add_edge(&mut func, source, t);
                }
                Terminator::JumpIf { then_bb, else_bb, .. } => {
                    add_edge(&mut func, source, then_bb);
                    add_edge(&mut func, source, else_bb);
                }
                Terminator::Return(_) => {
                    add_edge(&mut func, source, exit);
                }
            }
            proof {
                assert(func.blocks == pre.blocks);
                assert(term_wf(term, self.spec_locals().len() as int, n as int));
                assert forall|pp: BasicBlockId, b: BasicBlockId|
                    #![trigger id_in(func.succs@[pp.0 as int]@, b)]
                    #![trigger edge_upto(func, p + 1, pp, b)]
                    pp.0 < n + 2 && b.0 < n + 2
                    implies (id_in(func.succs@[pp.0 as int]@, b)
                        <==> edge_upto(func, p + 1, pp, b)) by {
                    assert(id_in(pre.succs@[pp.0 as int]@, b)
                        <==> edge_upto(pre, p as int, pp, b));
                    if pp.0 != p {
                        assert(func.succs@[pp.0 as int] == pre.succs@[pp.0 as int]);
                    }
                }
                assert forall|pp: BasicBlockId, b: BasicBlockId|
                    #![trigger id_in(func.preds@[b.0 as int]@, pp)]
                    #![trigger edge_upto(func, p + 1, pp, b)]
                    pp.0 < n + 2 && b.0 < n + 2
                    implies (id_in(func.preds@[b.0 as int]@, pp)
                        <==> edge_upto(func, p + 1, pp, b)) by {
                    assert(id_in(pre.preds@[b.0 as int]@, pp)
                        <==> edge_upto(pre, p as int, pp, b));
                    match term {
                        Terminator::Jump(t) => {
                            if b.0 != t.0 {
                                assert(func.preds@[b.0 as int] == pre.preds@[b.0 as int]);
                            }
                        }
                        Terminator::JumpIf { then_bb, else_bb, .. } => {
                            if b.0 != then_bb.0 && b.0 != else_bb.0 {
                                assert(func.preds@[b.0 as int] == pre.preds@[b.0 as int]);
                            }
                        }
                        Terminator::Return(_) => {
                            if b.0 != exit.0 {
                                assert(func.preds@[b.0 as int] == pre.preds@[b.0 as int]);
                            }
                        }
                    }
                }
                assert forall|i2: int, j: int|
                    0 <= i2 < n + 2 && 0 <= j < func.preds@[i2]@.len()
                    implies (#[trigger] func.preds@[i2]@[j]).0 < n + 2 by {
                    let y = func.preds@[i2]@[j];
                    if func.preds@[i2] == pre.preds@[i2] {
                        assert(pre.preds@[i2]@[j] == y);
                    } else if y != source && id_in(pre.preds@[i2]@, y) {
                        let k = choose|k: int| 0 <= k < pre.preds@[i2]@.len()
                            && pre.preds@[i2]@[k] == y;
                        assert(pre.preds@[i2]@[k].0 < n + 2);
                    }
                }
                assert forall|i2: int, j: int|
                    0 <= i2 < n + 2 && 0 <= j < func.succs@[i2]@.len()
                    implies (#[trigger] func.succs@[i2]@[j]).0 < n + 2 by {
                    let y = func.succs@[i2]@[j];
                    if func.succs@[i2] == pre.succs@[i2] {
                        assert(pre.succs@[i2]@[j] == y);
                    } else if !term_leads_to(term, exit, y) && id_in(pre.succs@[i2]@, y) {
                        let k = choose|k: int| 0 <= k < pre.succs@[i2]@.len()
                            && pre.succs@[i2]@[k] == y;
                        assert(pre.succs@[i2]@[k].0 < n + 2);
                    }
                }
            }
            p = p + 1;
        }

        proof {
            assert forall|pp: BasicBlockId, b: BasicBlockId|
                #![trigger func.edge(pp, b)]
                #![trigger id_in(func.succs@[pp.0 as int]@, b)]
                #![trigger id_in(func.preds@[b.0 as int]@, pp)]
                pp.0 < n + 2 && b.0 < n + 2
                implies (edge_upto(func, n as int, pp, b) <==> func.edge(pp, b)) by {
            }
        }

        func
    }
}

/// Do two terminators lead to the same targets? The locals they read may
/// differ.
pub open spec fn term_same_targets(a: Terminator, b: Terminator) -> bool {
    match (a, b) {
        (Terminator::Jump(x), Terminator::Jump(y)) => x == y,
        (
            Terminator::JumpIf { then_bb: t1, else_bb: e1, .. },
            Terminator::JumpIf { then_bb: t2, else_bb: e2, .. },
        ) => t1 == t2 && e1 == e2,
        (Terminator::Return(_), Terminator::Return(_)) => true,
        _ => false,
    }
}

/// A transform that keeps the graph shape keeps well-formedness: if every
/// terminator leads where it led before, every rewritten block stays in
/// bounds, and the locals only grew, the adjacency maps still match.
pub proof fn lemma_wf_preserved(f1: Function, f2: Function)
    requires
        f1.wf(),
        f2.arity == f1.arity,
        f2.locals@.len() >= f1.locals@.len(),
        f2.blocks@.len() == f1.blocks@.len(),
        f2.preds == f1.preds,
        f2.succs == f1.succs,
        f2.entry == f1.entry,
        f2.exit == f1.exit,
        forall|b: int| 0 <= b < f2.n() ==> term_same_targets(
            f1.blocks@[b].terminator,
            #[trigger] f2.blocks@[b].terminator,
        ),
        forall|b: int| 0 <= b < f2.n()
            ==> block_wf(#[trigger] f2.blocks@[b], f2.locals@.len() as int, f2.n()),
    ensures
        f2.wf(),
{
    assert forall|p: BasicBlockId, b: BasicBlockId| true implies (#[trigger] f2.edge(p, b)
        <==> f1.edge(p, b)) by {
        if 0 <= p.0 < f2.n() {
            assert(term_same_targets(f1.blocks@[p.0 as int].terminator,
                f2.blocks@[p.0 as int].terminator));
        }
    }
    assert forall|p: BasicBlockId, b: BasicBlockId|
        #![trigger id_in(f2.succs@[p.0 as int]@, b)]
        #![trigger f2.edge(p, b)]
        p.0 < f2.n() + 2 && b.0 < f2.n() + 2
        implies (id_in(f2.succs@[p.0 as int]@, b) <==> f2.edge(p, b)) by {
        assert(id_in(f1.succs@[p.0 as int]@, b) <==> f1.edge(p, b));
    }
    assert forall|p: BasicBlockId, b: BasicBlockId|
        #![trigger id_in(f2.preds@[b.0 as int]@, p)]
        #![trigger f2.edge(p, b)]
        p.0 < f2.n() + 2 && b.0 < f2.n() + 2
        implies (id_in(f2.preds@[b.0 as int]@, p) <==> f2.edge(p, b)) by {
        assert(id_in(f1.preds@[b.0 as int]@, p) <==> f1.edge(p, b));
    }
}

/// The edges considered after scanning the terminators of blocks `0..p`:
/// the synthetic `entry -> 0` edge plus those terminators' edges.
pub open spec fn edge_upto(f: Function, p: int, pp: BasicBlockId, b: BasicBlockId) -> bool {
    ||| (pp == f.entry && b == BasicBlockId(0) && f.n() > 0)
    ||| (pp.0 < p && term_leads_to(f.blocks@[pp.0 as int].terminator, f.exit, b))
}

/// Record the edge `p -> b` in both adjacency maps, keeping them sorted and
/// duplicate-free.
fn add_edge(f: &mut Function, p: BasicBlockId, b: BasicBlockId)
    requires
        p.0 < old(f).succs@.len(),
        b.0 < old(f).preds@.len(),
        old(f).preds@.len() == old(f).succs@.len(),
        forall|i: int| 0 <= i < old(f).preds@.len() ==> sorted_ids((#[trigger] old(f).preds@[i])@),
        forall|i: int| 0 <= i < old(f).succs@.len() ==> sorted_ids((#[trigger] old(f).succs@[i])@),
    ensures
        final(f).arity == old(f).arity,
        final(f).locals == old(f).locals,
        final(f).blocks == old(f).blocks,
        final(f).entry == old(f).entry,
        final(f).exit == old(f).exit,
        final(f).preds@.len() == old(f).preds@.len(),
        final(f).succs@.len() == old(f).succs@.len(),
        forall|i: int| 0 <= i < final(f).preds@.len() ==> sorted_ids((#[trigger] final(f).preds@[i])@),
        forall|i: int| 0 <= i < final(f).succs@.len() ==> sorted_ids((#[trigger] final(f).succs@[i])@),
        // Successor sets: only `succs[p]` changes, and only by adding `b`.
        forall|q: int| 0 <= q < final(f).succs@.len() && q != p.0
            ==> #[trigger] final(f).succs@[q] == old(f).succs@[q],
        forall|x: BasicBlockId| id_in(final(f).succs@[p.0 as int]@, x)
            <==> id_in(old(f).succs@[p.0 as int]@, x) || x == b,
        // Predecessor sets: only `preds[b]` changes, and only by adding `p`.
        forall|q: int| 0 <= q < final(f).preds@.len() && q != b.0
            ==> #[trigger] final(f).preds@[q] == old(f).preds@[q],
        forall|x: BasicBlockId| id_in(final(f).preds@[b.0 as int]@, x)
            <==> id_in(old(f).preds@[b.0 as int]@, x) || x == p,
        forall|j: int| 0 <= j < final(f).succs@[p.0 as int]@.len()
            ==> (#[trigger] final(f).succs@[p.0 as int]@[j]) == b
                || id_in(old(f).succs@[p.0 as int]@, final(f).succs@[p.0 as int]@[j]),
        forall|j: int| 0 <= j < final(f).preds@[b.0 as int]@.len()
            ==> (#[trigger] final(f).preds@[b.0 as int]@[j]) == p
                || id_in(old(f).preds@[b.0 as int]@, final(f).preds@[b.0 as int]@[j]),
    {
    let sv = f.succs.get_mut(p);
    insert_sorted(sv, b);
    let pv = f.preds.get_mut(b);
    insert_sorted(pv, p);
}

/// Insert `x` into the strictly sorted sequence `v`, unless already present.
pub(crate) fn insert_sorted(v: &mut Vec<BasicBlockId>, x: BasicBlockId)
    requires
        sorted_ids(old(v)@),
    ensures
        sorted_ids(final(v)@),
        forall|y: BasicBlockId| id_in(final(v)@, y) <==> id_in(old(v)@, y) || y == x,
        forall|j: int| 0 <= j < final(v)@.len()
            ==> (#[trigger] final(v)@[j]) == x || id_in(old(v)@, final(v)@[j]),
        final(v)@.len() <= old(v)@.len() + 1,
{
    let n = v.len();
    let mut i: usize = 0;
    while i < n && v[i].0 < x.0
        invariant
            n == v@.len(),
            0 <= i <= n,
            sorted_ids(v@),
            forall|j: int| 0 <= j < i ==> (#[trigger] v@[j]).0 < x.0,
        decreases n - i,
    {
        i = i + 1;
    }
    if i < n && v[i].0 == x.0 {
        proof {
            assert(v@[i as int] == x);
            assert(id_in(v@, x));
            assert forall|j: int| 0 <= j < v@.len()
                implies (#[trigger] v@[j]) == x || id_in(old(v)@, v@[j]) by {
                assert(old(v)@[j] == v@[j]);
            }
        }
        return ;
    }
    proof {
        assert forall|j: int| i <= j < v@.len() implies (#[trigger] v@[j]).0 > x.0 by {
            if j > i {
                assert(v@[i as int].0 < v@[j].0);
            }
        }
    }
    v.insert(i, x);
    proof {
        assert forall|y: BasicBlockId| id_in(v@, y) implies id_in(old(v)@, y) || y == x by {
            let k = choose|k: int| 0 <= k < v@.len() && v@[k] == y;
            if k < i {
                assert(old(v)@[k] == y);
            } else if k > i {
                assert(old(v)@[k - 1] == y);
            }
        }
        assert forall|y: BasicBlockId| id_in(old(v)@, y) implies id_in(v@, y) by {
            let k = choose|k: int| 0 <= k < old(v)@.len() && old(v)@[k] == y;
            if k < i {
                assert(v@[k] == y);
            } else {
                assert(v@[k + 1] == y);
            }
        }
        assert(v@[i as int] == x);
        assert(id_in(v@, x));
        assert forall|j: int| 0 <= j < v@.len()
            implies (#[trigger] v@[j]) == x || id_in(old(v)@, v@[j]) by {
            if j < i {
                assert(old(v)@[j] == v@[j]);
            } else if j > i {
                assert(old(v)@[j - 1] == v@[j]);
            }
        }
    }
}

} // verus!
