//! Live variables as a backward may-analysis.
//!
//! A local is live at a point if some path onward reaches a use before a
//! redefinition. The gen set of a statement is every local its right-hand
//! side mentions, a φ's whole operand list included; its kill set is the
//! assigned local. The terminator contributes the local of a `JumpIf`
//! condition or of a `Return`. The join is the union over the successors.

use vstd::prelude::*;

use crate::dataflow::bit_set::{
    lemma_count_below_lt, lemma_proper_subset_witness, BitSet,
};
use crate::dataflow::{lemma_rows_count_update, lemma_rows_count_upper, rows_count};
use crate::index::IndexMap;
use crate::mir::{BasicBlockId, Function, Local, Operand, Rvalue, Statement, Terminator};

verus! {

/// Does operand `o` read local `l`?
pub open spec fn operand_reads(o: Operand, l: int) -> bool {
    match o {
        Operand::Local(x) => x.0 == l,
        Operand::Constant(_) => false,
    }
}

/// The locals a right-hand side reads.
pub open spec fn rvalue_gen(r: Rvalue, l: int) -> bool {
    match r {
        Rvalue::Use(o) => operand_reads(o, l),
        Rvalue::BinaryOp { lhs, rhs, .. } => operand_reads(lhs, l) || operand_reads(rhs, l),
        Rvalue::Phi(entries) => exists|k: int| 0 <= k < entries@.len()
            && (#[trigger] entries@[k]).1.0 == l,
    }
}

/// The locals a terminator reads.
pub open spec fn term_gen(t: Terminator, l: int) -> bool {
    match t {
        Terminator::Jump(_) => false,
        Terminator::JumpIf { cond, .. } => operand_reads(cond, l),
        Terminator::Return(x) => x.0 == l,
    }
}

/// The union of the successors' in-sets.
pub open spec fn lv_join(f: Function, ins: Seq<BitSet>, b: int) -> Set<int> {
    Set::new(|l: int| exists|j: int| 0 <= j < f.succs@[b]@.len()
        && ins[(#[trigger] f.succs@[b]@[j]).0 as int].contains(l))
}

/// One statement's transfer: kill the assigned local, then add the reads.
pub open spec fn lv_stmt_xfer(s: Statement, after: Set<int>) -> Set<int> {
    match s {
        Statement::Assign { lhs, rhs } => Set::new(|l: int| (after.contains(l)
            && l != lhs.0 as int) || rvalue_gen(rhs, l)),
        Statement::Nop => after,
    }
}

/// The set live before statement `i` of the block, given the set `base`
/// live after the last statement (the terminator's reads already added).
pub open spec fn lv_xfer(blk_stmts: Seq<Statement>, i: int, base: Set<int>) -> Set<int>
    decreases blk_stmts.len() - i,
{
    if i >= blk_stmts.len() || i < 0 {
        base
    } else {
        lv_stmt_xfer(blk_stmts[i], lv_xfer(blk_stmts, i + 1, base))
    }
}

/// Does row `b` of `ins` satisfy its liveness equation?
pub open spec fn lv_eq(f: Function, ins: Seq<BitSet>, b: int) -> bool {
    forall|l: int| #[trigger] ins[b].contains(l) <==> lv_xfer(
        f.blocks@[b].statements@,
        0,
        Set::new(|l2: int| lv_join(f, ins, b).contains(l2)
            || term_gen(f.blocks@[b].terminator, l2)),
    ).contains(l)
}

/// The set a block's liveness equation starts from: the union of the
/// successors' in-sets plus the terminator's own reads.
pub open spec fn lv_base(f: Function, ins: Seq<BitSet>, b: int) -> Set<int> {
    Set::new(|l2: int| lv_join(f, ins, b).contains(l2)
        || term_gen(f.blocks@[b].terminator, l2))
}

/// The union of the successors' in-sets of an abstract family.
pub open spec fn lv_join_sets(f: Function, s: Seq<Set<int>>, b: int) -> Set<int> {
    Set::new(|l: int| exists|j: int| 0 <= j < f.succs@[b]@.len()
        && s[(#[trigger] f.succs@[b]@[j]).0 as int].contains(l))
}

/// Any family of sets that satisfies the liveness equations for every
/// real block and keeps both sentinel rows empty.
pub open spec fn lv_solution(f: Function, s: Seq<Set<int>>) -> bool {
    &&& s.len() == f.n() + 2
    &&& forall|b: int, l: int| 0 <= b < f.n() ==> (#[trigger] s[b].contains(l)
        <==> lv_xfer(
            f.blocks@[b].statements@,
            0,
            Set::new(|l2: int| lv_join_sets(f, s, b).contains(l2)
                || term_gen(f.blocks@[b].terminator, l2)),
        ).contains(l))
    &&& forall|l: int| !(#[trigger] s[f.n()].contains(l))
    &&& forall|l: int| !(#[trigger] s[f.n() + 1].contains(l))
}

/// One direction of the equation: everything row `b` holds, its transfer
/// produces. Empty rows satisfy it, and it keeps every recomputation from
/// shrinking a row, so the sets only grow.
pub open spec fn lv_sub(f: Function, ins: Seq<BitSet>, b: int) -> bool {
    forall|l: int| #[trigger] ins[b].contains(l)
        ==> lv_xfer(f.blocks@[b].statements@, 0, lv_base(f, ins, b)).contains(l)
}

/// The backward transfer is monotone in the set live after the block.
proof fn lemma_lv_xfer_mono(stmts: Seq<Statement>, i: int, s1: Set<int>, s2: Set<int>)
    requires
        forall|l: int| #[trigger] s1.contains(l) ==> s2.contains(l),
    ensures
        forall|l: int| #[trigger] lv_xfer(stmts, i, s1).contains(l)
            ==> lv_xfer(stmts, i, s2).contains(l),
    decreases stmts.len() - i,
{
    if 0 <= i < stmts.len() {
        lemma_lv_xfer_mono(stmts, i + 1, s1, s2);
        let p1 = lv_xfer(stmts, i + 1, s1);
        let p2 = lv_xfer(stmts, i + 1, s2);
        assert(lv_xfer(stmts, i, s1) == lv_stmt_xfer(stmts[i], p1));
        assert(lv_xfer(stmts, i, s2) == lv_stmt_xfer(stmts[i], p2));
        assert forall|l: int| #[trigger] lv_xfer(stmts, i, s1).contains(l)
            implies lv_xfer(stmts, i, s2).contains(l) by {
            match stmts[i] {
                Statement::Assign { lhs, rhs } => {
                    if !rvalue_gen(rhs, l) {
                        assert(p1.contains(l) && l != lhs.0 as int);
                        assert(p2.contains(l));
                    }
                }
                Statement::Nop => {}
            }
        }
    }
}

/// The live-variable analysis over one function.
pub struct LiveVariable<'flow> {
    fn_def: &'flow Function,
}

impl<'flow> LiveVariable<'flow> {
    /// The function being analysed.
    pub closed spec fn spec_fn_def(self) -> Function {
        *self.fn_def
    }

    /// Wrap a function for analysis.
    pub fn new(fn_def: &'flow Function) -> (r: Self)
        ensures
            r.spec_fn_def() == *fn_def,
    {
        LiveVariable { fn_def }
    }

    /// Iterate to the fixed point of the liveness equations.
    ///
    /// The result holds one local-index set per block, the sentinels
    /// included; row `b` satisfies `lv_eq` for every real block `b`, and the
    /// exit sentinel's row stays empty. The loop ends because a changed
    /// pass strictly grows the total member count.
    pub fn run(&self) -> (r: IndexMap<BasicBlockId, BitSet>)
        requires
            self.spec_fn_def().wf(),
            self.spec_fn_def().n() + 9 <= usize::MAX,
        ensures
            r@.len() == self.spec_fn_def().n() + 2,
            forall|b: int| 0 <= b < r@.len()
                ==> (#[trigger] r@[b]).capacity()
                    == 8 * ((self.spec_fn_def().locals@.len() + 7) / 8),
            forall|b: int| 0 <= b < self.spec_fn_def().n()
                ==> lv_eq(self.spec_fn_def(), r@, b),
            forall|l: int| !(#[trigger] r@[self.spec_fn_def().n() + 1].contains(l)),
            // The result is the least solution: it sits inside every family
            // satisfying the equations, so the ascending iteration pins the
            // sets uniquely. The forward-path liveness sets are one such
            // family, and being minimal among them, equal to these.
            forall|s: Seq<Set<int>>| #[trigger] lv_solution(self.spec_fn_def(), s)
                ==> forall|b: int, l: int| 0 <= b < self.spec_fn_def().n() + 2
                    && #[trigger] r@[b].contains(l) ==> s[b].contains(l),
    {
        let f = self.fn_def;
        let n = f.blocks.len();
        let np = f.succs.len();
        proof {
            assert(np == f.n() + 2);
        }
        let nlocals = f.locals.len();
        let ghost cap = 8 * ((nlocals + 7) / 8);

        let mut values_in: IndexMap<BasicBlockId, BitSet> = IndexMap::with_capacity(np);
        let mut k: usize = 0;
        while k < np
            invariant
                np == f.n() + 2,
                0 <= k <= np,
                cap == 8 * ((nlocals + 7) / 8),
                values_in@.len() == k,
                forall|j: int| 0 <= j < k
                    ==> (#[trigger] values_in@[j]).capacity() == cap,
                forall|j: int| 0 <= j < k
                    ==> (forall|l: int| !((#[trigger] values_in@[j]).contains(l))),
            decreases np - k,
        {
            values_in.push(BitSet::new(nlocals));
            k = k + 1;
        }

        proof {
            // Empty rows trivially sit inside their transfers, and inside
            // every solution.
            assert forall|b2: int| 0 <= b2 < n implies lv_sub(*f, values_in@, b2) by {}
            assert forall|s2: Seq<Set<int>>| #[trigger] lv_solution(*f, s2)
                implies forall|b2: int, l: int| 0 <= b2 < np
                    && #[trigger] values_in@[b2].contains(l) ==> s2[b2].contains(l) by {}
        }
        loop
            invariant
                np == f.n() + 2,
                n == f.n(),
                f == self.spec_fn_def(),
                f.wf(),
                nlocals == f.locals@.len(),
                cap == 8 * ((nlocals + 7) / 8),
                values_in@.len() == np,
                forall|j: int| 0 <= j < np
                    ==> (#[trigger] values_in@[j]).capacity() == cap,
                forall|l: int| !(#[trigger] values_in@[n + 1].contains(l)),
                forall|b2: int| 0 <= b2 < n ==> lv_sub(*f, values_in@, b2),
                forall|s2: Seq<Set<int>>| #[trigger] lv_solution(*f, s2)
                    ==> forall|b2: int, l: int| 0 <= b2 < np
                        && #[trigger] values_in@[b2].contains(l) ==> s2[b2].contains(l),
            decreases np as int * cap as int - rows_count(values_in@, np as int),
        {
            let ghost start = values_in@;
            let mut changed = false;
            let mut b: usize = 0;
            while b < n
                invariant
                    np == f.n() + 2,
                    n == f.n(),
                    f == self.spec_fn_def(),
                    f.wf(),
                    nlocals == f.locals@.len(),
                    cap == 8 * ((nlocals + 7) / 8),
                    0 <= b <= n,
                    values_in@.len() == np,
                    forall|j: int| 0 <= j < np
                        ==> (#[trigger] values_in@[j]).capacity() == cap,
                    forall|l: int| !(#[trigger] values_in@[n + 1].contains(l)),
                    forall|b2: int| 0 <= b2 < n ==> lv_sub(*f, values_in@, b2),
                    forall|s2: Seq<Set<int>>| #[trigger] lv_solution(*f, s2)
                    ==> forall|b2: int, l: int| 0 <= b2 < np
                        && #[trigger] values_in@[b2].contains(l) ==> s2[b2].contains(l),
                rows_count(values_in@, np as int) >= rows_count(start, np as int),
                    changed ==> rows_count(values_in@, np as int)
                        > rows_count(start, np as int),
                    !changed ==> values_in@ == start,
                    !changed ==> forall|b2: int| 0 <= b2 < b ==> lv_eq(*f, values_in@, b2),
                decreases n - b,
            {
                let succs = f.succs.at(BasicBlockId(b));
                let mut new_in = BitSet::new(nlocals);
                let nsuccs = succs.len();
                let mut j: usize = 0;
                while j < nsuccs
                    invariant
                        np == f.n() + 2,
                        n == f.n(),
                        f.wf(),
                        nlocals == f.locals@.len(),
                        cap == 8 * ((nlocals + 7) / 8),
                        0 <= b < n,
                        nsuccs == f.succs@[b as int]@.len(),
                        succs@ == f.succs@[b as int]@,
                        0 <= j <= nsuccs,
                        values_in@.len() == np,
                        forall|j2: int| 0 <= j2 < np
                            ==> (#[trigger] values_in@[j2]).capacity() == cap,
                        new_in.capacity() == cap,
                        forall|l: int| #[trigger] new_in.contains(l) <==> exists|j2: int|
                            0 <= j2 < j && values_in@[(#[trigger] succs@[j2]).0 as int]
                                .contains(l),
                    decreases nsuccs - j,
                {
                    let s = succs[j];
                    proof {
                        assert(f.succs@[b as int]@[j as int].0 < np);
                    }
                    let ghost prev = new_in;
                    new_in.union(values_in.at(s));
                    proof {
                        assert forall|l: int| #[trigger] new_in.contains(l)
                            implies exists|j2: int| 0 <= j2 < j + 1
                                && values_in@[(#[trigger] succs@[j2]).0 as int].contains(
                                l,
                            ) by {
                            if prev.contains(l) {
                                let j2 = choose|j2: int| 0 <= j2 < j
                                    && values_in@[(succs@[j2]).0 as int].contains(l);
                                assert(values_in@[(succs@[j2]).0 as int].contains(l));
                            } else {
                                assert(values_in@[(succs@[j as int]).0 as int].contains(l));
                            }
                        }
                        assert forall|l: int| (exists|j2: int| 0 <= j2 < j + 1
                            && values_in@[(#[trigger] succs@[j2]).0 as int].contains(l))
                            implies new_in.contains(l) by {
                            let j2 = choose|j2: int| 0 <= j2 < j + 1
                                && values_in@[(succs@[j2]).0 as int].contains(l);
                            if j2 < j {
                                assert(prev.contains(l));
                            }
                        }
                    }
                    j = j + 1;
                }
                let blk = f.blocks.at(BasicBlockId(b));
                // The terminator's reads come first in a backward pass.
                match &blk.terminator {
                    Terminator::JumpIf { cond: Operand::Local(local), .. } => {
                        new_in.insert(local.0);
                    }
                    Terminator::Return(local) => {
                        new_in.insert(local.0);
                    }
                    _ => {}
                }
                let ghost base = Set::new(|l2: int| lv_join(*f, values_in@, b as int)
                    .contains(l2) || term_gen(f.blocks@[b as int].terminator, l2));
                proof {
                    assert forall|l: int| #[trigger] new_in.contains(l)
                        <==> base.contains(l) by {}
                }
                // Then the statements, in reverse.
                let nstmts = blk.statements.len();
                let mut i: usize = nstmts;
                while i > 0
                    invariant
                        f.wf(),
                        n == f.n(),
                        nlocals == f.locals@.len(),
                        cap == 8 * ((nlocals + 7) / 8),
                        0 <= b < n,
                        blk == f.blocks@[b as int],
                        nstmts == blk.statements@.len(),
                        0 <= i <= nstmts,
                        new_in.capacity() == cap,
                        forall|l: int| #[trigger] new_in.contains(l)
                            <==> lv_xfer(blk.statements@, i as int, base).contains(l),
                    decreases i,
                {
                    i = i - 1;
                    match &blk.statements[i] {
                        Statement::Assign { lhs, rhs } => {
                            proof {
                                assert(crate::mir::stmt_wf(
                                    blk.statements@[i as int],
                                    f.locals@.len() as int,
                                    f.n(),
                                ));
                            }
                            new_in.remove(lhs.0);
                            match rhs {
                                Rvalue::Use(Operand::Local(local)) => {
                                    new_in.insert(local.0);
                                }
                                Rvalue::BinaryOp { lhs: a, rhs: bb, .. } => {
                                    match a {
                                        Operand::Local(local) => {
                                            new_in.insert(local.0);
                                        }
                                        _ => {}
                                    }
                                    match bb {
                                        Operand::Local(local) => {
                                            new_in.insert(local.0);
                                        }
                                        _ => {}
                                    }
                                }
                                Rvalue::Phi(values) => {
                                    let nv = values.len();
                                    let mut v: usize = 0;
                                    let ghost pre_phi = new_in;
                                    while v < nv
                                        invariant
                                            nv == values@.len(),
                                            0 <= v <= nv,
                                            forall|k2: int| 0 <= k2 < nv
                                                ==> (#[trigger] values@[k2]).1.0 < nlocals,
                                            new_in.capacity() == cap,
                                            nlocals <= cap,
                                            forall|l: int| #[trigger] new_in.contains(l)
                                                <==> (pre_phi.contains(l) || exists|k2: int|
                                                    0 <= k2 < v && (#[trigger] values@[
                                                    k2]).1.0 == l),
                                            forall|l: int| rvalue_gen(
                                                Rvalue::Phi(*values), l)
                                                <==> exists|k2: int| 0 <= k2 < nv
                                                    && (#[trigger] values@[k2]).1.0 == l,
                                        decreases nv - v,
                                    {
                                        let ghost prevv = new_in;
                                        new_in.insert(values[v].1.0);
                                        proof {
                                            assert forall|l: int| #[trigger] new_in
                                                .contains(l) implies (pre_phi.contains(l)
                                                    || exists|k2: int| 0 <= k2 < v + 1
                                                        && (#[trigger] values@[k2]).1.0
                                                            == l) by {
                                                if prevv.contains(l) {
                                                } else {
                                                    assert(values@[v as int].1.0 == l);
                                                }
                                            }
                                            assert forall|l: int| (pre_phi.contains(l)
                                                || exists|k2: int| 0 <= k2 < v + 1
                                                    && (#[trigger] values@[k2]).1.0 == l)
                                                implies new_in.contains(l) by {
                                                if !pre_phi.contains(l) {
                                                    let k2 = choose|k2: int| 0 <= k2 < v + 1
                                                        && values@[k2].1.0 == l;
                                                    if k2 < v {
                                                        assert(prevv.contains(l));
                                                    }
                                                }
                                            }
                                        }
                                        v = v + 1;
                                    }
                                }
                                _ => {}
                            }
                            proof {
                                assert forall|l: int| #[trigger] new_in.contains(l)
                                    <==> lv_xfer(blk.statements@, i as int, base)
                                        .contains(l) by {
                                    assert(lv_xfer(blk.statements@, i as int, base)
                                        == lv_stmt_xfer(
                                        blk.statements@[i as int],
                                        lv_xfer(blk.statements@, i + 1, base),
                                    ));
                                }
                            }
                        }
                        Statement::Nop => {
                            proof {
                                assert(lv_xfer(blk.statements@, i as int, base)
                                    == lv_xfer(blk.statements@, i + 1, base));
                            }
                        }
                    }
                }
                let same = new_in.same(values_in.at(BasicBlockId(b)));
                if !same {
                    proof {
                        // The row only grows: everything it held, the new
                        // set holds too.
                        assert forall|l: int| values_in@[b as int].contains(l)
                            implies #[trigger] new_in.contains(l) by {
                            assert(lv_sub(*f, values_in@, b as int));
                            assert(lv_xfer(f.blocks@[b as int].statements@, 0,
                                lv_base(*f, values_in@, b as int)).contains(l));
                            assert(lv_base(*f, values_in@, b as int) =~= base);
                        }
                    }
                    let ghost pre_rows = values_in@;
                    let ghost old_row = values_in@[b as int];
                    let slot = values_in.get_mut(BasicBlockId(b));
                    *slot = new_in;
                    changed = true;
                    proof {
                        assert forall|l: int| !(#[trigger] values_in@[n + 1].contains(l))
                            by {}
                        // Strictly more members in the changed row, so
                        // strictly more in total.
                        let w = lemma_proper_subset_witness(old_row, new_in);
                        lemma_count_below_lt(old_row, new_in, new_in.capacity() as int, w);
                        lemma_rows_count_update(pre_rows, np as int, b as int, new_in);
                        assert(values_in@ =~= pre_rows.update(b as int, new_in));
                        assert(rows_count(values_in@, np as int)
                            > rows_count(pre_rows, np as int));
                        // The rows stay inside every solution: the new row
                        // is the transfer of a base the solution's own base
                        // contains.
                        assert forall|s2: Seq<Set<int>>| #[trigger] lv_solution(*f, s2)
                            implies forall|b2: int, l: int| 0 <= b2 < np
                                && #[trigger] values_in@[b2].contains(l)
                                ==> s2[b2].contains(l) by {
                            assert forall|b2: int, l: int| 0 <= b2 < np
                                && #[trigger] values_in@[b2].contains(l)
                                implies s2[b2].contains(l) by {
                                if b2 == b as int {
                                    assert(new_in.contains(l));
                                    let sbase = Set::new(|l2: int| lv_join_sets(*f, s2,
                                        b2).contains(l2)
                                        || term_gen(f.blocks@[b2].terminator, l2));
                                    assert forall|l2: int| #[trigger] base.contains(l2)
                                        implies sbase.contains(l2) by {
                                        if lv_join(*f, pre_rows, b2).contains(l2) {
                                            let j2 = choose|j2: int| 0 <= j2
                                                < f.succs@[b2]@.len()
                                                && pre_rows[(#[trigger] f.succs@[b2]@[
                                                j2]).0 as int].contains(l2);
                                            assert(f.succs@[b2]@[j2].0 < np);
                                            assert(s2[f.succs@[b2]@[j2].0 as int]
                                                .contains(l2));
                                            assert(lv_join_sets(*f, s2, b2).contains(l2));
                                        }
                                    }
                                    lemma_lv_xfer_mono(
                                        f.blocks@[b2].statements@,
                                        0,
                                        base,
                                        sbase,
                                    );
                                    assert(lv_xfer(f.blocks@[b2].statements@, 0, sbase)
                                        .contains(l));
                                } else {
                                    assert(pre_rows[b2].contains(l));
                                }
                            }
                        }
                        // The one-directional equation survives the growth.
                        assert forall|b2: int| 0 <= b2 < n
                            implies lv_sub(*f, values_in@, b2) by {
                            assert forall|l: int| 0 <= b2 < n
                                && #[trigger] values_in@[b2].contains(l)
                                implies lv_xfer(f.blocks@[b2].statements@, 0,
                                lv_base(*f, values_in@, b2)).contains(l) by {
                                assert forall|l2: int| #[trigger] lv_base(
                                    *f,
                                    pre_rows,
                                    b2,
                                ).contains(l2) implies lv_base(*f, values_in@, b2)
                                    .contains(l2) by {
                                    if lv_join(*f, pre_rows, b2).contains(l2) {
                                        let j2 = choose|j2: int| 0 <= j2
                                            < f.succs@[b2]@.len()
                                            && pre_rows[(#[trigger] f.succs@[b2]@[j2]).0
                                                as int].contains(l2);
                                        assert(values_in@[f.succs@[b2]@[j2].0 as int]
                                            .contains(l2));
                                    }
                                }
                                lemma_lv_xfer_mono(
                                    f.blocks@[b2].statements@,
                                    0,
                                    lv_base(*f, pre_rows, b2),
                                    lv_base(*f, values_in@, b2),
                                );
                                if b2 == b as int {
                                    assert(new_in.contains(l));
                                    assert(lv_base(*f, pre_rows, b2) =~= base);
                                    assert(lv_xfer(f.blocks@[b2].statements@, 0,
                                        lv_base(*f, pre_rows, b2)).contains(l));
                                } else {
                                    assert(pre_rows[b2].contains(l));
                                    assert(lv_sub(*f, pre_rows, b2));
                                    assert(lv_xfer(f.blocks@[b2].statements@, 0,
                                        lv_base(*f, pre_rows, b2)).contains(l));
                                }
                            }
                        }
                    }
                } else {
                    proof {
                        assert forall|l: int| #[trigger] values_in@[b as int].contains(l)
                            <==> lv_xfer(f.blocks@[b as int].statements@, 0, base)
                                .contains(l) by {
                            assert(new_in.contains(l)
                                <==> values_in@[b as int].contains(l));
                        }
                        assert(lv_eq(*f, values_in@, b as int));
                    }
                }
                b = b + 1;
            }
            if !changed {
                return values_in;
            }
            proof {
                lemma_rows_count_upper(values_in@, np as int, cap as int);
            }
        }
    }
}

} // verus!
