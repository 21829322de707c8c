//! Static single assignment: φ placement and variable renaming.
//!
//! Placement seeds a worklist with the blocks that define a local and pushes
//! a φ into every frontier block that lacks one, growing the worklist as
//! blocks become definers. Renaming walks the dominator tree from the entry
//! sentinel with one stack of current names per original local: each
//! assignment coins a fresh local, and each successor's φ entry for the
//! visited block is pointed at the current name. Both walks are iterative.

use vstd::prelude::*;

use crate::dominance_frontiers::{dominance_frontiers, ids_below, in_frontier};
use crate::dominator_tree::greatest_dom_solution;
use crate::dominator_tree::{
    count_false, lemma_count_false_nonneg, lemma_count_false_update, DominatorTreeBuilder,
};
use crate::index::IndexMap;
use crate::mir::{
    block_wf, lemma_wf_preserved, stmt_wf, term_same_targets, term_wf, BasicBlockId, Function,
    Local, Operand, Rvalue, Statement, Terminator,
};

verus! {

/// Do the two statements assign the same target, or are both `Nop`? The
/// right-hand sides may differ.
pub open spec fn stmt_same_lhs(a: Statement, b: Statement) -> bool {
    match (a, b) {
        (Statement::Assign { lhs: l1, .. }, Statement::Assign { lhs: l2, .. }) => l1 == l2,
        (Statement::Nop, Statement::Nop) => true,
        _ => false,
    }
}

/// Does block `b` of `f` assign local `x`?
pub open spec fn block_defines(f: Function, b: int, x: int) -> bool {
    exists|i: int| 0 <= i < f.blocks@[b].statements@.len()
        && (#[trigger] f.blocks@[b].statements@[i]) is Assign
        && f.blocks@[b].statements@[i]->Assign_lhs.0 == x
}

/// Is `s` a φ assignment of local `x` whose entries cover exactly the
/// predecessors of block `y` of `f`, in order?
pub open spec fn phi_covers(s: Statement, f: Function, y: int, x: int) -> bool {
    &&& s is Assign
    &&& s->Assign_lhs.0 == x
    &&& s->Assign_rhs is Phi
    &&& s->Assign_rhs->Phi_0@.len() == f.preds@[y]@.len()
    &&& forall|k: int| 0 <= k < f.preds@[y]@.len()
        ==> (#[trigger] s->Assign_rhs->Phi_0@[k]).0 == f.preds@[y]@[k]
}

/// Does block `y` of `f` hold a φ for `x` covering its predecessors?
pub open spec fn has_phi_for(f: Function, y: int, x: int) -> bool {
    exists|i: int| 0 <= i < f.blocks@[y].statements@.len()
        && phi_covers(#[trigger] f.blocks@[y].statements@[i], f, y, x)
}

/// If `s` is a φ assignment, do its entries cover exactly the
/// predecessors of block `y` of `f`, in order?
pub open spec fn phi_shape_ok(s: Statement, f: Function, y: int) -> bool {
    (s is Assign && s->Assign_rhs is Phi) ==> (
        s->Assign_rhs->Phi_0@.len() == f.preds@[y]@.len()
        && forall|k: int| 0 <= k < f.preds@[y]@.len()
            ==> (#[trigger] s->Assign_rhs->Phi_0@[k]).0 == f.preds@[y]@[k]
    )
}

/// Do the two statements agree on being a φ, and on the predecessor
/// components and count of their entries? The assigned local and the
/// entry locals may differ.
pub open spec fn same_phi_skeleton(a: Statement, b: Statement) -> bool {
    &&& ((a is Assign && a->Assign_rhs is Phi) <==> (b is Assign && b->Assign_rhs is Phi))
    &&& ((a is Assign && a->Assign_rhs is Phi) ==> (
        a->Assign_rhs->Phi_0@.len() == b->Assign_rhs->Phi_0@.len()
        && forall|k: int| 0 <= k < a->Assign_rhs->Phi_0@.len()
            ==> (#[trigger] a->Assign_rhs->Phi_0@[k]).0 == b->Assign_rhs->Phi_0@[k].0
    ))
}

/// Does `f` hold no φ assignment at all, as pre-SSA MIR does?
pub open spec fn no_phis(f: Function) -> bool {
    forall|b2: int, i2: int| 0 <= b2 < f.n() && 0 <= i2 < f.blocks@[b2].statements@.len()
        ==> !((#[trigger] f.blocks@[b2].statements@[i2]) is Assign
            && f.blocks@[b2].statements@[i2]->Assign_rhs is Phi)
}

/// Does block `y` hold a φ assignment whose entries cover exactly its
/// predecessors, in order? The assigned local is not constrained: the
/// renaming pass re-points it.
pub open spec fn has_phi_covering(f: Function, y: int) -> bool {
    exists|i: int| 0 <= i < f.blocks@[y].statements@.len()
        && (#[trigger] f.blocks@[y].statements@[i]) is Assign
        && f.blocks@[y].statements@[i]->Assign_rhs is Phi
        && f.blocks@[y].statements@[i]->Assign_rhs->Phi_0@.len() == f.preds@[y]@.len()
        && (forall|k: int| 0 <= k < f.preds@[y]@.len()
            ==> (#[trigger] f.blocks@[y].statements@[i]->Assign_rhs->Phi_0@[k]).0
                == f.preds@[y]@[k])
}

/// Is `b` a member of the worklist?
pub open spec fn wl_has(w: Seq<usize>, b: int) -> bool {
    exists|k: int| 0 <= k < w.len() && w[k] as int == b
}

/// Bring `func` into SSA form: place φs on the dominance frontiers of each
/// local's definition sites, then rename so that every assignment coins a
/// fresh local.
///
/// The graph shape is kept: the block count, arity, `preds`, `succs` and
/// both sentinels stay what they were, every terminator leads where it led,
/// and the original locals keep their types while fresh ones are appended.
pub fn ssa_transform(func: &mut Function)
    requires
        old(func).wf(),
        old(func).n() + 9 <= usize::MAX,
    ensures
        final(func).wf(),
        final(func).n() == old(func).n(),
        final(func).arity == old(func).arity,
        final(func).preds == old(func).preds,
        final(func).succs == old(func).succs,
        final(func).entry == old(func).entry,
        final(func).exit == old(func).exit,
        final(func).locals@.len() >= old(func).locals@.len(),
        forall|l: int| 0 <= l < old(func).locals@.len()
            ==> #[trigger] final(func).locals@[l] == old(func).locals@[l],
        forall|b: int| 0 <= b < old(func).n() ==> term_same_targets(
            old(func).blocks@[b].terminator,
            #[trigger] final(func).blocks@[b].terminator,
        ),
        // The static-single-assignment property for the coined names: two
        // distinct statements never assign the same fresh local; only the
        // untouched names of unreachable code stay shared.
        forall|b1: int, i1: int, b2: int, i2: int|
            #![trigger final(func).blocks@[b1].statements@[i1],
                final(func).blocks@[b2].statements@[i2]]
            0 <= b1 < old(func).n() && 0 <= b2 < old(func).n()
                && 0 <= i1 < final(func).blocks@[b1].statements@.len()
                && 0 <= i2 < final(func).blocks@[b2].statements@.len()
                && final(func).blocks@[b1].statements@[i1] is Assign
                && final(func).blocks@[b2].statements@[i2] is Assign
                && final(func).blocks@[b1].statements@[i1]->Assign_lhs
                    == final(func).blocks@[b2].statements@[i2]->Assign_lhs
                && !(b1 == b2 && i1 == i2)
                ==> final(func).blocks@[b1].statements@[i1]->Assign_lhs.0
                    < old(func).locals@.len(),
        // Starting from pre-SSA code, every φ of the result has one entry
        // per predecessor of its block, in order.
        no_phis(*old(func)) ==> forall|b2: int, i2: int| 0 <= b2 < old(func).n()
            && 0 <= i2 < final(func).blocks@[b2].statements@.len()
            ==> phi_shape_ok(
                #[trigger] final(func).blocks@[b2].statements@[i2],
                *final(func),
                b2,
            ),
        // The placement obligation over the real frontiers: every block on
        // the dominance frontier of a definer, under the dominance
        // relation, ends up holding a φ covering its predecessors.
        forall|s: Seq<Set<int>>|
            #[trigger] greatest_dom_solution(
                *old(func),
                s,
                8 * ((old(func).n() + 2 + 7) / 8),
            ) ==> forall|x: int, b2: int, y: int|
                #![trigger block_defines(*old(func), b2, x), in_frontier(*old(func), s, b2, y)]
                0 <= x < old(func).locals@.len() && 0 <= b2 < old(func).n()
                    && 0 <= y < old(func).n()
                    && block_defines(*old(func), b2, x)
                    && in_frontier(*old(func), s, b2, y)
                    ==> has_phi_covering(*final(func), y),
{
    let frontiers = dominance_frontiers(func);
    place_phis(func, &frontiers);
    let ghost mid = *func;
    rename_locals(func);
    proof {
        if no_phis(*old(func)) {
            assert forall|b2: int, i2: int| 0 <= b2 < old(func).n()
                && 0 <= i2 < func.blocks@[b2].statements@.len()
                implies phi_shape_ok(
                #[trigger] func.blocks@[b2].statements@[i2],
                *func,
                b2,
            ) by {
                assert(phi_shape_ok(mid.blocks@[b2].statements@[i2], mid, b2));
                assert(same_phi_skeleton(func.blocks@[b2].statements@[i2],
                    mid.blocks@[b2].statements@[i2]));
                assert(func.preds == mid.preds);
            }
        }
        assert forall|s: Seq<Set<int>>| #[trigger] greatest_dom_solution(
            *old(func),
            s,
            8 * ((old(func).n() + 2 + 7) / 8),
        ) implies forall|x: int, b2: int, y: int|
            #![trigger block_defines(*old(func), b2, x), in_frontier(*old(func), s, b2, y)]
            0 <= x < old(func).locals@.len() && 0 <= b2 < old(func).n()
                && 0 <= y < old(func).n()
                && block_defines(*old(func), b2, x)
                && in_frontier(*old(func), s, b2, y)
                ==> has_phi_covering(*func, y) by {
            assert forall|x: int, b2: int, y: int|
                #![trigger block_defines(*old(func), b2, x), in_frontier(*old(func), s, b2, y)]
                0 <= x < old(func).locals@.len() && 0 <= b2 < old(func).n()
                    && 0 <= y < old(func).n()
                    && block_defines(*old(func), b2, x)
                    && in_frontier(*old(func), s, b2, y)
                implies has_phi_covering(*func, y) by {
                // The frontier rows list exactly the frontier members.
                assert(crate::mir::id_in(frontiers@[b2]@, BasicBlockId(y as usize)));
                let k = choose|k: int| 0 <= k < frontiers@[b2]@.len()
                    && frontiers@[b2]@[k] == BasicBlockId(y as usize);
                assert(frontiers@[b2]@[k].0 == y);
                // So the placement pass put a φ for `x` there.
                assert(has_phi_for(mid, y, x));
                let i = choose|i: int| 0 <= i < mid.blocks@[y].statements@.len()
                    && phi_covers(#[trigger] mid.blocks@[y].statements@[i], mid, y, x);
                // Renaming keeps the φ's predecessor skeleton.
                assert(same_phi_skeleton(func.blocks@[y].statements@[i],
                    mid.blocks@[y].statements@[i]));
                assert(func.preds == mid.preds);
                assert(func.blocks@[y].statements@[i] is Assign
                    && func.blocks@[y].statements@[i]->Assign_rhs is Phi);
                assert forall|k2: int| 0 <= k2 < func.preds@[y]@.len()
                    implies (#[trigger] func.blocks@[y].statements@[i]->Assign_rhs
                        ->Phi_0@[k2]).0 == func.preds@[y]@[k2] by {
                    assert(mid.blocks@[y].statements@[i]->Assign_rhs->Phi_0@[k2].0
                        == mid.preds@[y]@[k2]);
                }
                assert(has_phi_covering(*func, y));
            }
        }
    }
}

/// Prepend `Assign { lhs: x, rhs: Phi(..) }` to every block on the iterated
/// dominance frontier of `x`'s definition sites, one φ entry per
/// predecessor, for every local `x`.
pub fn place_phis(func: &mut Function, frontiers: &IndexMap<BasicBlockId, Vec<BasicBlockId>>)
    requires
        old(func).wf(),
        frontiers@.len() == old(func).n() + 2,
        forall|b: int| 0 <= b < frontiers@.len()
            ==> ids_below((#[trigger] frontiers@[b])@, old(func).n() + 2),
    ensures
        final(func).wf(),
        final(func).n() == old(func).n(),
        final(func).arity == old(func).arity,
        final(func).locals == old(func).locals,
        final(func).preds == old(func).preds,
        final(func).succs == old(func).succs,
        final(func).entry == old(func).entry,
        final(func).exit == old(func).exit,
        forall|b: int| 0 <= b < old(func).n()
            ==> #[trigger] final(func).blocks@[b].terminator
                == old(func).blocks@[b].terminator,
        // The placement obligation: every real block on the frontier of a
        // block that defines `x` ends up holding a φ for `x`, one entry per
        // predecessor.
        forall|x: int, b2: int, k: int|
            #![trigger block_defines(*old(func), b2, x), frontiers@[b2]@[k]]
            0 <= x < old(func).locals@.len() && 0 <= b2 < old(func).n()
                && block_defines(*old(func), b2, x)
                && 0 <= k < frontiers@[b2]@.len()
                && frontiers@[b2]@[k].0 < old(func).n()
                ==> has_phi_for(*final(func), frontiers@[b2]@[k].0 as int, x),
        // Starting from pre-SSA code, every φ the pass leaves behind has
        // one entry per predecessor of its block, in order.
        no_phis(*old(func)) ==> forall|b2: int, i2: int| 0 <= b2 < old(func).n()
            && 0 <= i2 < final(func).blocks@[b2].statements@.len()
            ==> phi_shape_ok(
                #[trigger] final(func).blocks@[b2].statements@[i2],
                *final(func),
                b2,
            ),
{
    let n = func.blocks.len();
    let nlocals = func.locals.len();
    let mut x: usize = 0;
    while x < nlocals
        invariant
            func.wf(),
            n == func.n(),
            n == old(func).n(),
            nlocals == func.locals@.len(),
            func.arity == old(func).arity,
            func.locals == old(func).locals,
            func.preds == old(func).preds,
            func.succs == old(func).succs,
            func.entry == old(func).entry,
            func.exit == old(func).exit,
            frontiers@.len() == n + 2,
            forall|b: int| 0 <= b < frontiers@.len()
                ==> ids_below((#[trigger] frontiers@[b])@, n + 2),
            0 <= x <= nlocals,
            forall|b: int| 0 <= b < n
                ==> #[trigger] func.blocks@[b].terminator
                    == old(func).blocks@[b].terminator,
            forall|x2: int, b2: int| 0 <= x2 < nlocals && 0 <= b2 < n
                && #[trigger] block_defines(*old(func), b2, x2)
                ==> block_defines(*func, b2, x2),
            forall|x2: int, b2: int, k2: int|
                #![trigger block_defines(*old(func), b2, x2), frontiers@[b2]@[k2]]
                0 <= x2 < x && 0 <= b2 < n
                    && block_defines(*old(func), b2, x2)
                    && 0 <= k2 < frontiers@[b2]@.len()
                    && frontiers@[b2]@[k2].0 < n
                    ==> has_phi_for(*func, frontiers@[b2]@[k2].0 as int, x2),
            no_phis(*old(func)) ==> forall|b2: int, i2: int| 0 <= b2 < n
                && 0 <= i2 < func.blocks@[b2].statements@.len()
                ==> phi_shape_ok(
                    #[trigger] func.blocks@[b2].statements@[i2],
                    *func,
                    b2,
                ),
        decreases nlocals - x,
    {
        // Which blocks define `x`?
        let mut defines: Vec<bool> = Vec::with_capacity(n);
        let mut worklist: Vec<usize> = Vec::new();
        let mut b: usize = 0;
        while b < n
            invariant
                func.wf(),
                n == func.n(),
                0 <= b <= n,
                defines@.len() == b,
                forall|k: int| 0 <= k < worklist@.len() ==> (#[trigger] worklist@[k]) < n,
                forall|b3: int| 0 <= b3 < b
                    ==> ((#[trigger] defines@[b3]) <==> block_defines(*func, b3, x as int)),
                forall|b3: int| 0 <= b3 < b && defines@[b3] ==> wl_has(worklist@, b3),
            decreases n - b,
        {
            let blk = func.blocks.at(BasicBlockId(b));
            let nstmts = blk.statements.len();
            let mut found = false;
            let mut i: usize = 0;
            while i < nstmts
                invariant
                    *blk == func.blocks@[b as int],
                    b < n,
                    n == func.n(),
                    nstmts == blk.statements@.len(),
                    0 <= i <= nstmts,
                    found <==> exists|i2: int| 0 <= i2 < i
                        && (#[trigger] blk.statements@[i2]) is Assign
                        && blk.statements@[i2]->Assign_lhs.0 == x,
                decreases nstmts - i,
            {
                match &blk.statements[i] {
                    Statement::Assign { lhs, .. } => {
                        if lhs.0 == x {
                            found = true;
                            proof {
                                assert(blk.statements@[i as int] is Assign
                                    && blk.statements@[i as int]->Assign_lhs.0 == x);
                            }
                        }
                    }
                    Statement::Nop => {}
                }
                i = i + 1;
            }
            proof {
                assert(found <==> block_defines(*func, b as int, x as int));
            }
            let ghost pre_wl = worklist@;
            defines.push(found);
            if found {
                worklist.push(b);
            }
            proof {
                assert forall|b3: int| 0 <= b3 < b + 1 && defines@[b3]
                    implies wl_has(worklist@, b3) by {
                    if b3 < b {
                        let k2 = choose|k2: int| 0 <= k2 < pre_wl.len()
                            && pre_wl[k2] as int == b3;
                        assert(worklist@[k2] as int == b3);
                    } else {
                        assert(worklist@[worklist@.len() - 1] as int == b3);
                    }
                }
            }
            b = b + 1;
        }

        let mut has_phi: Vec<bool> = Vec::with_capacity(n);
        let mut k: usize = 0;
        while k < n
            invariant
                0 <= k <= n,
                has_phi@.len() == k,
                forall|j: int| 0 <= j < k ==> !(#[trigger] has_phi@[j]),
            decreases n - k,
        {
            has_phi.push(false);
            k = k + 1;
        }
        proof {
            lemma_count_false_nonneg(has_phi@);
        }
        let ghost fx = *func;

        while worklist.len() > 0
            invariant
                func.wf(),
                n == func.n(),
                n == old(func).n(),
                nlocals == func.locals@.len(),
                func.arity == old(func).arity,
                func.locals == old(func).locals,
                func.preds == old(func).preds,
                func.succs == old(func).succs,
                func.entry == old(func).entry,
                func.exit == old(func).exit,
                frontiers@.len() == n + 2,
                forall|b2: int| 0 <= b2 < frontiers@.len()
                    ==> ids_below((#[trigger] frontiers@[b2])@, n + 2),
                0 <= x < nlocals,
                has_phi@.len() == n,
                count_false(has_phi@) >= 0,
                defines@.len() == n,
                forall|k2: int| 0 <= k2 < worklist@.len() ==> (#[trigger] worklist@[k2]) < n,
                forall|b2: int| 0 <= b2 < n
                    ==> #[trigger] func.blocks@[b2].terminator
                        == old(func).blocks@[b2].terminator,
                forall|x2: int, b3: int| 0 <= x2 < nlocals && 0 <= b3 < n
                    && #[trigger] block_defines(*old(func), b3, x2)
                    ==> block_defines(*func, b3, x2),
                forall|b3: int| 0 <= b3 < n && #[trigger] block_defines(fx, b3, x as int)
                    ==> defines@[b3],
                forall|y2: int| 0 <= y2 < n && #[trigger] has_phi@[y2]
                    ==> has_phi_for(*func, y2, x as int),
                forall|b3: int| 0 <= b3 < n && #[trigger] defines@[b3]
                    ==> wl_has(worklist@, b3)
                        || (forall|k2: int| 0 <= k2 < frontiers@[b3]@.len()
                            && (#[trigger] frontiers@[b3]@[k2]).0 < n
                            ==> has_phi@[frontiers@[b3]@[k2].0 as int]),
                forall|x2: int, b3: int, k2: int|
                    #![trigger block_defines(*old(func), b3, x2), frontiers@[b3]@[k2]]
                    0 <= x2 < x && 0 <= b3 < n
                        && block_defines(*old(func), b3, x2)
                        && 0 <= k2 < frontiers@[b3]@.len()
                        && frontiers@[b3]@[k2].0 < n
                        ==> has_phi_for(*func, frontiers@[b3]@[k2].0 as int, x2),
                    no_phis(*old(func)) ==> forall|b2: int, i2: int| 0 <= b2 < n
                    && 0 <= i2 < func.blocks@[b2].statements@.len()
                    ==> phi_shape_ok(
                        #[trigger] func.blocks@[b2].statements@[i2],
                        *func,
                        b2,
                    ),
            decreases worklist@.len() + 2 * count_false(has_phi@),
        {
            let ghost pre_wl = worklist@;
            let b2 = worklist.pop().unwrap();
            proof {
                assert forall|b3: int| 0 <= b3 < n && defines@[b3] && b3 != b2 as int
                    && wl_has(pre_wl, b3) implies wl_has(worklist@, b3) by {
                    let k2 = choose|k2: int| 0 <= k2 < pre_wl.len()
                        && pre_wl[k2] as int == b3;
                    assert(k2 < pre_wl.len() - 1);
                    assert(worklist@[k2] as int == b3);
                }
            }
            let ghost wl0 = worklist@.len() as int;
            let ghost cf0 = count_false(has_phi@);
            let row = frontiers.at(BasicBlockId(b2));
            let nrow = row.len();
            let mut j: usize = 0;
            while j < nrow
                invariant
                    func.wf(),
                    n == func.n(),
                    n == old(func).n(),
                    nlocals == func.locals@.len(),
                    func.arity == old(func).arity,
                    func.locals == old(func).locals,
                    func.preds == old(func).preds,
                    func.succs == old(func).succs,
                    func.entry == old(func).entry,
                    func.exit == old(func).exit,
                    frontiers@.len() == n + 2,
                    forall|b3: int| 0 <= b3 < frontiers@.len()
                        ==> ids_below((#[trigger] frontiers@[b3])@, n + 2),
                    0 <= x < nlocals,
                    b2 < n,
                    row@ == frontiers@[b2 as int]@,
                    nrow == row@.len(),
                    0 <= j <= nrow,
                    has_phi@.len() == n,
                    count_false(has_phi@) >= 0,
                    defines@.len() == n,
                    forall|k2: int| 0 <= k2 < worklist@.len()
                        ==> (#[trigger] worklist@[k2]) < n,
                    worklist@.len() + 2 * count_false(has_phi@) <= wl0 + 2 * cf0,
                    forall|b3: int| 0 <= b3 < n
                        ==> #[trigger] func.blocks@[b3].terminator
                            == old(func).blocks@[b3].terminator,
                    forall|x2: int, b3: int| 0 <= x2 < nlocals && 0 <= b3 < n
                        && #[trigger] block_defines(*old(func), b3, x2)
                        ==> block_defines(*func, b3, x2),
                    forall|b3: int| 0 <= b3 < n && #[trigger] block_defines(fx, b3, x as int)
                        ==> defines@[b3],
                    forall|y2: int| 0 <= y2 < n && #[trigger] has_phi@[y2]
                        ==> has_phi_for(*func, y2, x as int),
                    forall|b3: int| 0 <= b3 < n && #[trigger] defines@[b3] && b3 != b2 as int
                        ==> wl_has(worklist@, b3)
                            || (forall|k2: int| 0 <= k2 < frontiers@[b3]@.len()
                                && (#[trigger] frontiers@[b3]@[k2]).0 < n
                                ==> has_phi@[frontiers@[b3]@[k2].0 as int]),
                    forall|k2: int| 0 <= k2 < j && (#[trigger] row@[k2]).0 < n
                        ==> has_phi@[row@[k2].0 as int],
                    forall|x2: int, b3: int, k2: int|
                        #![trigger block_defines(*old(func), b3, x2), frontiers@[b3]@[k2]]
                        0 <= x2 < x && 0 <= b3 < n
                            && block_defines(*old(func), b3, x2)
                            && 0 <= k2 < frontiers@[b3]@.len()
                            && frontiers@[b3]@[k2].0 < n
                            ==> has_phi_for(*func, frontiers@[b3]@[k2].0 as int, x2),
                            no_phis(*old(func)) ==> forall|b2: int, i2: int| 0 <= b2 < n
                        && 0 <= i2 < func.blocks@[b2].statements@.len()
                        ==> phi_shape_ok(
                            #[trigger] func.blocks@[b2].statements@[i2],
                            *func,
                            b2,
                        ),
                decreases nrow - j,
            {
                let y = row[j];
                proof {
                    assert(frontiers@[b2 as int]@[j as int].0 < n + 2);
                }
                if y.0 < n && !has_phi[y.0] {
                    let ghost pre_phi = has_phi@;
                    let hp = &mut has_phi[y.0];
                    *hp = true;
                    proof {
                        lemma_count_false_update(pre_phi, y.0 as int);
                        lemma_count_false_nonneg(has_phi@);
                    }
                    // One φ entry per predecessor of `y`.
                    let preds = func.preds.at(y);
                    let npreds = preds.len();
                    let mut entries: Vec<(BasicBlockId, Local)> = Vec::with_capacity(npreds);
                    let mut p: usize = 0;
                    while p < npreds
                        invariant
                            func.wf(),
                            n == func.n(),
                            y.0 < n,
                            0 <= x < nlocals,
                            nlocals == func.locals@.len(),
                            npreds == func.preds@[y.0 as int]@.len(),
                            preds@ == func.preds@[y.0 as int]@,
                            0 <= p <= npreds,
                            entries@.len() == p,
                            forall|k2: int| 0 <= k2 < p
                                ==> (#[trigger] entries@[k2]).0.0 < n + 2
                                    && entries@[k2].1.0 < nlocals,
                            forall|k2: int| 0 <= k2 < p
                                ==> #[trigger] entries@[k2]
                                    == (func.preds@[y.0 as int]@[k2], Local(x)),
                        decreases npreds - p,
                    {
                        let pred = preds[p];
                        proof {
                            assert(func.preds@[y.0 as int]@[p as int].0 < n + 2);
                        }
                        entries.push((pred, Local(x)));
                        p = p + 1;
                    }
                    let ghost pre_func = *func;
                    let blk = func.blocks.get_mut(y);
                    blk.statements.insert(0, Statement::Assign {
                        lhs: Local(x),
                        rhs: Rvalue::Phi(entries),
                    });
                    proof {
                        let nb = func.blocks@[y.0 as int];
                        let ob = pre_func.blocks@[y.0 as int];
                        assert(stmt_wf(nb.statements@[0], nlocals as int, n as int));
                        assert forall|i2: int| 0 <= i2 < nb.statements@.len()
                            implies stmt_wf(
                            #[trigger] nb.statements@[i2],
                            nlocals as int,
                            n as int,
                        ) by {
                            if i2 > 0 {
                                assert(nb.statements@[i2] == ob.statements@[i2 - 1]);
                                assert(stmt_wf(ob.statements@[i2 - 1], nlocals as int,
                                    n as int));
                            }
                        }
                        assert(block_wf(nb, nlocals as int, n as int));
                        assert forall|b3: int| 0 <= b3 < n implies term_same_targets(
                            pre_func.blocks@[b3].terminator,
                            #[trigger] func.blocks@[b3].terminator,
                        ) by {
                            assert(func.blocks@[b3].terminator
                                == pre_func.blocks@[b3].terminator);
                        }
                        assert forall|b3: int| 0 <= b3 < n implies block_wf(
                            #[trigger] func.blocks@[b3],
                            nlocals as int,
                            n as int,
                        ) by {
                            if b3 != y.0 as int {
                                assert(func.blocks@[b3] == pre_func.blocks@[b3]);
                            }
                        }
                        lemma_wf_preserved(pre_func, *func);
                        // The new head covers `y`'s predecessors.
                        assert(phi_covers(func.blocks@[y.0 as int].statements@[0], *func,
                            y.0 as int, x as int));
                        assert(has_phi_for(*func, y.0 as int, x as int));
                        // Everything already present survives the prepend.
                        assert forall|y2: int, x2: int| 0 <= y2 < n
                            && #[trigger] has_phi_for(pre_func, y2, x2)
                            implies has_phi_for(*func, y2, x2) by {
                            let i2 = choose|i2: int| 0 <= i2
                                < pre_func.blocks@[y2].statements@.len()
                                && phi_covers(#[trigger] pre_func.blocks@[y2].statements@[
                                i2], pre_func, y2, x2);
                            if y2 == y.0 as int {
                                assert(func.blocks@[y2].statements@[i2 + 1]
                                    == pre_func.blocks@[y2].statements@[i2]);
                                assert(phi_covers(func.blocks@[y2].statements@[i2 + 1],
                                    *func, y2, x2));
                            } else {
                                assert(func.blocks@[y2] == pre_func.blocks@[y2]);
                                assert(phi_covers(func.blocks@[y2].statements@[i2], *func,
                                    y2, x2));
                            }
                        }
                        if no_phis(*old(func)) {
                            assert forall|b3: int, i2: int| 0 <= b3 < n
                                && 0 <= i2 < func.blocks@[b3].statements@.len()
                                implies phi_shape_ok(
                                #[trigger] func.blocks@[b3].statements@[i2],
                                *func,
                                b3,
                            ) by {
                                if b3 == y.0 as int {
                                    if i2 == 0 {
                                        assert(phi_covers(func.blocks@[b3].statements@[0],
                                            *func, b3, x as int));
                                    } else {
                                        assert(func.blocks@[b3].statements@[i2]
                                            == pre_func.blocks@[b3].statements@[i2 - 1]);
                                        assert(phi_shape_ok(
                                            pre_func.blocks@[b3].statements@[i2 - 1],
                                            pre_func, b3));
                                    }
                                } else {
                                    assert(func.blocks@[b3] == pre_func.blocks@[b3]);
                                    assert(phi_shape_ok(
                                        pre_func.blocks@[b3].statements@[i2],
                                        pre_func, b3));
                                }
                            }
                        }
                        assert forall|b3: int, x2: int| 0 <= b3 < n
                            && #[trigger] block_defines(pre_func, b3, x2)
                            implies block_defines(*func, b3, x2) by {
                            let i2 = choose|i2: int| 0 <= i2
                                < pre_func.blocks@[b3].statements@.len()
                                && (#[trigger] pre_func.blocks@[b3].statements@[i2])
                                    is Assign
                                && pre_func.blocks@[b3].statements@[i2]->Assign_lhs.0
                                    == x2;
                            if b3 == y.0 as int {
                                assert(func.blocks@[b3].statements@[i2 + 1]
                                    == pre_func.blocks@[b3].statements@[i2]);
                            } else {
                                assert(func.blocks@[b3] == pre_func.blocks@[b3]);
                            }
                        }
                    }
                    if !defines[y.0] {
                        let ghost wl_pre = worklist@;
                        let df = &mut defines[y.0];
                        *df = true;
                        worklist.push(y.0);
                        proof {
                            assert forall|b3: int| 0 <= b3 < n && wl_has(wl_pre, b3)
                                implies wl_has(worklist@, b3) by {
                                let k2 = choose|k2: int| 0 <= k2 < wl_pre.len()
                                    && wl_pre[k2] as int == b3;
                                assert(worklist@[k2] as int == b3);
                            }
                            assert(worklist@[worklist@.len() - 1] as int == y.0 as int);
                            assert(wl_has(worklist@, y.0 as int));
                        }
                    }
                }
                j = j + 1;
            }
        }
        proof {
            // The worklist drained: every definer's whole frontier is
            // marked, and every mark is a φ.
            assert forall|b3: int, k2: int|
                0 <= b3 < n && block_defines(*old(func), b3, x as int)
                    && 0 <= k2 < frontiers@[b3]@.len()
                    && (#[trigger] frontiers@[b3]@[k2]).0 < n
                implies has_phi_for(*func, frontiers@[b3]@[k2].0 as int, x as int) by {
                assert(block_defines(fx, b3, x as int));
                assert(defines@[b3]);
                assert(!wl_has(worklist@, b3));
                assert(has_phi@[frontiers@[b3]@[k2].0 as int]);
            }
        }
        x = x + 1;
    }
}

/// Rename by Cytron's stack algorithm over the dominator tree, iteratively:
/// an explicit stack interleaves block visits with the stack pops owed when
/// a subtree is done.
pub fn rename_locals(func: &mut Function)
    requires
        old(func).wf(),
        old(func).n() + 9 <= usize::MAX,
    ensures
        final(func).wf(),
        final(func).n() == old(func).n(),
        final(func).arity == old(func).arity,
        final(func).preds == old(func).preds,
        final(func).succs == old(func).succs,
        final(func).entry == old(func).entry,
        final(func).exit == old(func).exit,
        final(func).locals@.len() >= old(func).locals@.len(),
        forall|l: int| 0 <= l < old(func).locals@.len()
            ==> #[trigger] final(func).locals@[l] == old(func).locals@[l],
        forall|b: int| 0 <= b < old(func).n() ==> term_same_targets(
            old(func).blocks@[b].terminator,
            #[trigger] final(func).blocks@[b].terminator,
        ),
        // Single assignment for the coined names: two distinct statements
        // never assign the same fresh local.
        forall|b1: int, i1: int, b2: int, i2: int|
            #![trigger final(func).blocks@[b1].statements@[i1],
                final(func).blocks@[b2].statements@[i2]]
            0 <= b1 < old(func).n() && 0 <= b2 < old(func).n()
                && 0 <= i1 < final(func).blocks@[b1].statements@.len()
                && 0 <= i2 < final(func).blocks@[b2].statements@.len()
                && final(func).blocks@[b1].statements@[i1] is Assign
                && final(func).blocks@[b2].statements@[i2] is Assign
                && final(func).blocks@[b1].statements@[i1]->Assign_lhs
                    == final(func).blocks@[b2].statements@[i2]->Assign_lhs
                && !(b1 == b2 && i1 == i2)
                ==> final(func).blocks@[b1].statements@[i1]->Assign_lhs.0
                    < old(func).locals@.len(),
        // Renaming keeps every block's statement count and every φ's
        // predecessor skeleton.
        forall|b2: int| 0 <= b2 < old(func).n()
            ==> #[trigger] final(func).blocks@[b2].statements@.len()
                == old(func).blocks@[b2].statements@.len(),
        forall|b2: int, i2: int| 0 <= b2 < old(func).n()
            && 0 <= i2 < old(func).blocks@[b2].statements@.len()
            ==> same_phi_skeleton(
                #[trigger] final(func).blocks@[b2].statements@[i2],
                old(func).blocks@[b2].statements@[i2],
            ),
{
    let idoms = DominatorTreeBuilder::new(func).build();
    let n = func.blocks.len();
    let np = func.preds.len();
    proof {
        assert(np == func.n() + 2);
    }
    // Children lists of the dominator tree.
    let mut domtree: IndexMap<BasicBlockId, Vec<BasicBlockId>> = IndexMap::with_capacity(np);
    let mut k: usize = 0;
    while k < np
        invariant
            0 <= k <= np,
            domtree@.len() == k,
            forall|b: int| 0 <= b < k ==> (#[trigger] domtree@[b])@.len() == 0,
        decreases np - k,
    {
        domtree.push(Vec::new());
        k = k + 1;
    }
    let mut b: usize = 0;
    while b < np
        invariant
            np == idoms@.len(),
            0 <= b <= np,
            domtree@.len() == np,
            forall|b2: int| 0 <= b2 < np ==> match #[trigger] idoms@[b2] {
                Some(x) => x.0 < np,
                None => true,
            },
            forall|b2: int| 0 <= b2 < np
                ==> ids_below((#[trigger] domtree@[b2])@, np as int),
        decreases np - b,
    {
        match *idoms.at(BasicBlockId(b)) {
            Some(idom) => {
                let row = domtree.get_mut(idom);
                row.push(BasicBlockId(b));
            }
            None => {}
        }
        b = b + 1;
    }

    // One stack of current names per original local, seeded with itself.
    let nlocals0 = func.locals.len();
    let mut stacks: IndexMap<Local, Vec<Local>> = IndexMap::with_capacity(nlocals0);
    let mut l: usize = 0;
    while l < nlocals0
        invariant
            0 <= l <= nlocals0,
            nlocals0 == func.locals@.len(),
            stacks@.len() == l,
            forall|l2: int| 0 <= l2 < l ==> (#[trigger] stacks@[l2])@.len() >= 1,
            forall|l2: int, k2: int| 0 <= l2 < l && 0 <= k2 < stacks@[l2]@.len()
                ==> (#[trigger] stacks@[l2]@[k2]).0 < func.locals@.len(),
        decreases nlocals0 - l,
    {
        let mut st: Vec<Local> = Vec::new();
        st.push(Local(l));
        stacks.push(st);
        l = l + 1;
    }

    let mut visited: Vec<bool> = Vec::with_capacity(np);
    let mut k2: usize = 0;
    while k2 < np
        invariant
            0 <= k2 <= np,
            visited@.len() == k2,
            forall|b2: int| 0 <= b2 < k2 ==> !(#[trigger] visited@[b2]),
        decreases np - k2,
    {
        visited.push(false);
        k2 = k2 + 1;
    }

    // `None` enters a block; `Some(pushed)` finishes it, popping the names
    // its statements pushed.
    let mut stack: Vec<(BasicBlockId, Option<Vec<Local>>)> = Vec::new();
    stack.push((BasicBlockId(n), None));
    proof {
        lemma_count_false_nonneg(visited@);
    }
    while stack.len() > 0
        invariant
            func.wf(),
            n == func.n(),
            n == old(func).n(),
            np == func.n() + 2,
            func.arity == old(func).arity,
            func.preds == old(func).preds,
            func.succs == old(func).succs,
            func.entry == old(func).entry,
            func.exit == old(func).exit,
            func.locals@.len() >= nlocals0,
            nlocals0 == old(func).locals@.len(),
            forall|l2: int| 0 <= l2 < nlocals0
                ==> #[trigger] func.locals@[l2] == old(func).locals@[l2],
            visited@.len() == np,
            count_false(visited@) >= 0,
            domtree@.len() == np,
            forall|b2: int| 0 <= b2 < np
                ==> ids_below((#[trigger] domtree@[b2])@, np as int),
            stacks@.len() == nlocals0,
            nlocals0 <= func.locals@.len(),
            forall|l2: int| 0 <= l2 < nlocals0 ==> (#[trigger] stacks@[l2])@.len() >= 1,
            forall|l2: int, k3: int| 0 <= l2 < nlocals0 && 0 <= k3 < stacks@[l2]@.len()
                ==> (#[trigger] stacks@[l2]@[k3]).0 < func.locals@.len(),
            forall|s: int| 0 <= s < stack@.len() ==> (#[trigger] stack@[s]).0.0 < np
                && match stack@[s].1 {
                    Some(pushed) => forall|k3: int| 0 <= k3 < pushed@.len()
                        ==> (#[trigger] pushed@[k3]).0 < nlocals0,
                    None => true,
                },
            forall|b2: int| 0 <= b2 < n ==> term_same_targets(
                old(func).blocks@[b2].terminator,
                #[trigger] func.blocks@[b2].terminator,
            ),
            forall|b2: int| 0 <= b2 < n
                ==> #[trigger] func.blocks@[b2].statements@.len()
                    == old(func).blocks@[b2].statements@.len(),
            forall|b2: int, i2: int| 0 <= b2 < n
                && 0 <= i2 < old(func).blocks@[b2].statements@.len()
                ==> same_phi_skeleton(
                    #[trigger] func.blocks@[b2].statements@[i2],
                    old(func).blocks@[b2].statements@[i2],
                ),
            forall|b2: int, i2: int| 0 <= b2 < n && !visited@[b2]
                && 0 <= i2 < func.blocks@[b2].statements@.len()
                && (#[trigger] func.blocks@[b2].statements@[i2]) is Assign
                ==> func.blocks@[b2].statements@[i2]->Assign_lhs.0 < nlocals0,
            forall|b2: int, i2: int| 0 <= b2 < n && visited@[b2]
                && 0 <= i2 < func.blocks@[b2].statements@.len()
                && (#[trigger] func.blocks@[b2].statements@[i2]) is Assign
                ==> func.blocks@[b2].statements@[i2]->Assign_lhs.0 < func.locals@.len(),
            forall|b1: int, i1: int, b2: int, i2: int|
                #![trigger func.blocks@[b1].statements@[i1],
                    func.blocks@[b2].statements@[i2]]
                0 <= b1 < n && 0 <= b2 < n && visited@[b1] && visited@[b2]
                    && 0 <= i1 < func.blocks@[b1].statements@.len()
                    && 0 <= i2 < func.blocks@[b2].statements@.len()
                    && func.blocks@[b1].statements@[i1] is Assign
                    && func.blocks@[b2].statements@[i2] is Assign
                    && func.blocks@[b1].statements@[i1]->Assign_lhs
                        == func.blocks@[b2].statements@[i2]->Assign_lhs
                    && func.blocks@[b1].statements@[i1]->Assign_lhs.0 >= nlocals0
                    ==> b1 == b2 && i1 == i2,
        decreases count_false(visited@), stack@.len(),
    {
        let (block, action) = stack.pop().unwrap();
        match action {
            Some(pushed) => {
                // The subtree is done: pop what this block pushed.
                let npushed = pushed.len();
                let mut q: usize = 0;
                while q < npushed
                    invariant
                        npushed == pushed@.len(),
                        0 <= q <= npushed,
                        stacks@.len() == nlocals0,
                        nlocals0 <= func.locals@.len(),
                        forall|k3: int| 0 <= k3 < npushed
                            ==> (#[trigger] pushed@[k3]).0 < nlocals0,
                        forall|l2: int| 0 <= l2 < nlocals0
                            ==> (#[trigger] stacks@[l2])@.len() >= 1,
                        forall|l2: int, k3: int| 0 <= l2 < nlocals0
                            && 0 <= k3 < stacks@[l2]@.len()
                            ==> (#[trigger] stacks@[l2]@[k3]).0 < func.locals@.len(),
                    decreases npushed - q,
                {
                    let orig = pushed[q];
                    let st = stacks.get_mut(orig);
                    if st.len() > 1 {
                        let _ = st.pop();
                    }
                    q = q + 1;
                }
            }
            None => {
                if block.0 < np && !visited[block.0] {
                    let ghost pre_visited = visited@;
                    let vslot = &mut visited[block.0];
                    *vslot = true;
                    proof {
                        lemma_count_false_update(pre_visited, block.0 as int);
                        lemma_count_false_nonneg(visited@);
                    }
                    let pushed = if block.0 < n {
                        rename_block(func, &mut stacks, block, nlocals0)
                    } else {
                        // A sentinel has no statements; only its successors'
                        // φs could matter, and the entry's successor is
                        // block 0, handled when block 0 itself is entered.
                        rewrite_succ_phis(func, &stacks, block, nlocals0);
                        Vec::new()
                    };
                    stack.push((block, Some(pushed)));
                    let children = domtree.at(block);
                    let nchildren = children.len();
                    let mut c: usize = 0;
                    while c < nchildren
                        invariant
                            nchildren == domtree@[block.0 as int]@.len(),
                            children@ == domtree@[block.0 as int]@,
                            block.0 < np,
                            domtree@.len() == np,
                            forall|b2: int| 0 <= b2 < np
                                ==> ids_below((#[trigger] domtree@[b2])@, np as int),
                            0 <= c <= nchildren,
                            forall|s: int| 0 <= s < stack@.len()
                                ==> (#[trigger] stack@[s]).0.0 < np
                                    && match stack@[s].1 {
                                        Some(p2) => forall|k3: int| 0 <= k3 < p2@.len()
                                            ==> (#[trigger] p2@[k3]).0 < nlocals0,
                                        None => true,
                                    },
                        decreases nchildren - c,
                    {
                        let child = children[c];
                        proof {
                            assert(domtree@[block.0 as int]@[c as int].0 < np);
                        }
                        stack.push((child, None));
                        c = c + 1;
                    }
                }
            }
        }
    }
    proof {
        assert forall|b1: int, i1: int, b2: int, i2: int|
            #![trigger func.blocks@[b1].statements@[i1],
                func.blocks@[b2].statements@[i2]]
            0 <= b1 < n && 0 <= b2 < n
                && 0 <= i1 < func.blocks@[b1].statements@.len()
                && 0 <= i2 < func.blocks@[b2].statements@.len()
                && func.blocks@[b1].statements@[i1] is Assign
                && func.blocks@[b2].statements@[i2] is Assign
                && func.blocks@[b1].statements@[i1]->Assign_lhs
                    == func.blocks@[b2].statements@[i2]->Assign_lhs
                && !(b1 == b2 && i1 == i2)
            implies func.blocks@[b1].statements@[i1]->Assign_lhs.0 < nlocals0 by {
            if func.blocks@[b1].statements@[i1]->Assign_lhs.0 >= nlocals0 {
                assert(visited@[b1]);
                assert(visited@[b2]);
            }
        }
    }
}

/// The current name of an original local: the top of its stack.
fn current_name(stacks: &IndexMap<Local, Vec<Local>>, orig: Local) -> (r: Local)
    requires
        orig.0 < stacks@.len(),
        stacks@[orig.0 as int]@.len() >= 1,
    ensures
        r == stacks@[orig.0 as int]@.last(),
{
    let st = stacks.at(orig);
    st[st.len() - 1]
}

/// Rewrite an operand to the current name of its local, when the local is
/// an original one with a stack.
fn rewrite_operand(
    stacks: &IndexMap<Local, Vec<Local>>,
    o: Operand,
    nlocals0: usize,
) -> (r: Operand)
    requires
        stacks@.len() == nlocals0,
        forall|l2: int| 0 <= l2 < nlocals0 ==> (#[trigger] stacks@[l2])@.len() >= 1,
    ensures
        o is Constant ==> r == o,
        o is Local ==> r is Local,
        (o is Local && o->Local_0.0 < nlocals0)
            ==> r->Local_0 == stacks@[o->Local_0.0 as int]@.last(),
        (o is Local && o->Local_0.0 >= nlocals0) ==> r == o,
{
    match o {
        Operand::Local(l2) => {
            if l2.0 < nlocals0 {
                Operand::Local(current_name(stacks, l2))
            } else {
                Operand::Local(l2)
            }
        }
        Operand::Constant(c) => Operand::Constant(c),
    }
}

/// Point each φ at the head of every successor of `block` at the current
/// name for the entry whose predecessor component is `block`.
fn rewrite_succ_phis(
    func: &mut Function,
    stacks: &IndexMap<Local, Vec<Local>>,
    block: BasicBlockId,
    nlocals0: usize,
)
    requires
        old(func).wf(),
        block.0 < old(func).n() + 2,
        stacks@.len() == nlocals0,
        nlocals0 <= old(func).locals@.len(),
        forall|l2: int| 0 <= l2 < nlocals0 ==> (#[trigger] stacks@[l2])@.len() >= 1,
        forall|l2: int, k3: int| 0 <= l2 < nlocals0 && 0 <= k3 < stacks@[l2]@.len()
            ==> (#[trigger] stacks@[l2]@[k3]).0 < old(func).locals@.len(),
    ensures
        final(func).wf(),
        final(func).n() == old(func).n(),
        final(func).arity == old(func).arity,
        final(func).locals == old(func).locals,
        final(func).preds == old(func).preds,
        final(func).succs == old(func).succs,
        final(func).entry == old(func).entry,
        final(func).exit == old(func).exit,
        forall|b2: int| 0 <= b2 < old(func).n()
            ==> #[trigger] final(func).blocks@[b2].terminator
                == old(func).blocks@[b2].terminator,
        forall|b2: int| 0 <= b2 < old(func).n()
            ==> #[trigger] final(func).blocks@[b2].statements@.len()
                == old(func).blocks@[b2].statements@.len(),
        forall|b2: int, i2: int| 0 <= b2 < old(func).n()
            && 0 <= i2 < old(func).blocks@[b2].statements@.len()
            ==> stmt_same_lhs(
                #[trigger] final(func).blocks@[b2].statements@[i2],
                old(func).blocks@[b2].statements@[i2],
            ),
        forall|b2: int, i2: int| 0 <= b2 < old(func).n()
            && 0 <= i2 < old(func).blocks@[b2].statements@.len()
            ==> same_phi_skeleton(
                #[trigger] final(func).blocks@[b2].statements@[i2],
                old(func).blocks@[b2].statements@[i2],
            ),
{
    let n = func.blocks.len();
    let succs_row = func.succs.at(block);
    let nsuccs = succs_row.len();
    // The successor ids are read out first, so the blocks can be edited.
    let mut targets: Vec<BasicBlockId> = Vec::with_capacity(nsuccs);
    let mut j: usize = 0;
    while j < nsuccs
        invariant
            func.wf(),
            block.0 < func.n() + 2,
            nsuccs == func.succs@[block.0 as int]@.len(),
            succs_row@ == func.succs@[block.0 as int]@,
            0 <= j <= nsuccs,
            targets@.len() == j,
            forall|k3: int| 0 <= k3 < j ==> (#[trigger] targets@[k3]).0 < func.n() + 2,
        decreases nsuccs - j,
    {
        let y = succs_row[j];
        proof {
            assert(func.succs@[block.0 as int]@[j as int].0 < func.n() + 2);
        }
        targets.push(y);
        j = j + 1;
    }
    let ntargets = targets.len();
    let mut t: usize = 0;
    while t < ntargets
        invariant
            func.wf(),
            n == func.n(),
            n == old(func).n(),
            func.arity == old(func).arity,
            func.locals == old(func).locals,
            func.preds == old(func).preds,
            func.succs == old(func).succs,
            func.entry == old(func).entry,
            func.exit == old(func).exit,
            block.0 < n + 2,
            stacks@.len() == nlocals0,
            nlocals0 <= func.locals@.len(),
            forall|l2: int| 0 <= l2 < nlocals0 ==> (#[trigger] stacks@[l2])@.len() >= 1,
            forall|l2: int, k3: int| 0 <= l2 < nlocals0 && 0 <= k3 < stacks@[l2]@.len()
                ==> (#[trigger] stacks@[l2]@[k3]).0 < func.locals@.len(),
            ntargets == targets@.len(),
            0 <= t <= ntargets,
            forall|k3: int| 0 <= k3 < ntargets ==> (#[trigger] targets@[k3]).0 < n + 2,
            forall|b2: int| 0 <= b2 < n
                ==> #[trigger] func.blocks@[b2].terminator
                    == old(func).blocks@[b2].terminator,
            forall|b2: int| 0 <= b2 < n
                ==> #[trigger] func.blocks@[b2].statements@.len()
                    == old(func).blocks@[b2].statements@.len(),
            forall|b2: int, i2: int| 0 <= b2 < n
                && 0 <= i2 < old(func).blocks@[b2].statements@.len()
                ==> stmt_same_lhs(
                    #[trigger] func.blocks@[b2].statements@[i2],
                    old(func).blocks@[b2].statements@[i2],
                ),
            forall|b2: int, i2: int| 0 <= b2 < n
                && 0 <= i2 < old(func).blocks@[b2].statements@.len()
                ==> same_phi_skeleton(
                    #[trigger] func.blocks@[b2].statements@[i2],
                    old(func).blocks@[b2].statements@[i2],
                ),
        decreases ntargets - t,
    {
        let y = targets[t];
        if y.0 < n {
            let ghost pre_func = *func;
            let nlocals_now = func.locals.len();
            let blk = func.blocks.get_mut(y);
            let nstmts = blk.statements.len();
            let mut i: usize = 0;
            while i < nstmts
                invariant
                    n == pre_func.n(),
                    y.0 < n,
                    nstmts == blk.statements@.len(),
                    0 <= i <= nstmts,
                    nlocals_now == pre_func.locals@.len(),
                    stacks@.len() == nlocals0,
                    nlocals0 <= nlocals_now,
                    forall|l2: int| 0 <= l2 < nlocals0
                        ==> (#[trigger] stacks@[l2])@.len() >= 1,
                    forall|l2: int, k3: int| 0 <= l2 < nlocals0
                        && 0 <= k3 < stacks@[l2]@.len()
                        ==> (#[trigger] stacks@[l2]@[k3]).0 < nlocals_now,
                    blk.terminator == pre_func.blocks@[y.0 as int].terminator,
                    forall|i2: int| 0 <= i2 < nstmts ==> stmt_wf(
                        #[trigger] blk.statements@[i2],
                        nlocals_now as int,
                        n as int,
                    ),
                    forall|i2: int| 0 <= i2 < nstmts ==> stmt_same_lhs(
                        #[trigger] blk.statements@[i2],
                        pre_func.blocks@[y.0 as int].statements@[i2],
                    ),
                    forall|i2: int| 0 <= i2 < nstmts ==> same_phi_skeleton(
                        #[trigger] blk.statements@[i2],
                        pre_func.blocks@[y.0 as int].statements@[i2],
                    ),
                decreases nstmts - i,
            {
                let is_phi_for = match &blk.statements[i] {
                    Statement::Assign { rhs: Rvalue::Phi(_), .. } => true,
                    _ => false,
                };
                if is_phi_for {
                    let slot = &mut blk.statements[i];
                    match slot {
                        Statement::Assign { rhs: Rvalue::Phi(entries), .. } => {
                            let ghost ent0 = entries@;
                            let ne = entries.len();
                            let mut e: usize = 0;
                            while e < ne
                                invariant
                                    ne == entries@.len(),
                                    ent0.len() == ne,
                                    forall|k3: int| 0 <= k3 < ne
                                        ==> (#[trigger] entries@[k3]).0 == ent0[k3].0,
                                    0 <= e <= ne,
                                    stacks@.len() == nlocals0,
                                    nlocals0 <= nlocals_now,
                                    forall|l2: int| 0 <= l2 < nlocals0
                                        ==> (#[trigger] stacks@[l2])@.len() >= 1,
                                    forall|l2: int, k3: int| 0 <= l2 < nlocals0
                                        && 0 <= k3 < stacks@[l2]@.len()
                                        ==> (#[trigger] stacks@[l2]@[k3]).0 < nlocals_now,
                                    forall|k3: int| 0 <= k3 < ne
                                        ==> (#[trigger] entries@[k3]).0.0 < n + 2
                                            && entries@[k3].1.0 < nlocals_now,
                                decreases ne - e,
                            {
                                let matches_pred = entries[e].0 == block;
                                let orig = entries[e].1;
                                if matches_pred && orig.0 < nlocals0 {
                                    let fresh = current_name(stacks, orig);
                                    let eslot = &mut entries[e];
                                    eslot.1 = fresh;
                                }
                                e = e + 1;
                            }
                        }
                        _ => {}
                    }
                }
                i = i + 1;
            }
            proof {
                assert forall|b3: int| 0 <= b3 < n implies term_same_targets(
                    pre_func.blocks@[b3].terminator,
                    #[trigger] func.blocks@[b3].terminator,
                ) by {
                    if b3 != y.0 as int {
                        assert(func.blocks@[b3] == pre_func.blocks@[b3]);
                    }
                }
                assert forall|b3: int| 0 <= b3 < n implies block_wf(
                    #[trigger] func.blocks@[b3],
                    func.locals@.len() as int,
                    n as int,
                ) by {
                    if b3 != y.0 as int {
                        assert(func.blocks@[b3] == pre_func.blocks@[b3]);
                        assert(block_wf(pre_func.blocks@[b3],
                            pre_func.locals@.len() as int, n as int));
                    }
                }
                lemma_wf_preserved(pre_func, *func);
                assert forall|b2: int| 0 <= b2 < n
                    implies #[trigger] func.blocks@[b2].terminator
                        == old(func).blocks@[b2].terminator by {
                    if b2 != y.0 as int {
                        assert(func.blocks@[b2] == pre_func.blocks@[b2]);
                    }
                }
                assert forall|b2: int| 0 <= b2 < n
                    implies #[trigger] func.blocks@[b2].statements@.len()
                        == old(func).blocks@[b2].statements@.len() by {
                    if b2 != y.0 as int {
                        assert(func.blocks@[b2] == pre_func.blocks@[b2]);
                    }
                }
                assert forall|b2: int, i2: int| 0 <= b2 < n
                    && 0 <= i2 < old(func).blocks@[b2].statements@.len()
                    implies stmt_same_lhs(
                    #[trigger] func.blocks@[b2].statements@[i2],
                    old(func).blocks@[b2].statements@[i2],
                ) by {
                    if b2 != y.0 as int {
                        assert(func.blocks@[b2] == pre_func.blocks@[b2]);
                        assert(stmt_same_lhs(pre_func.blocks@[b2].statements@[i2],
                            old(func).blocks@[b2].statements@[i2]));
                    } else {
                        assert(stmt_same_lhs(func.blocks@[b2].statements@[i2],
                            pre_func.blocks@[b2].statements@[i2]));
                        assert(stmt_same_lhs(pre_func.blocks@[b2].statements@[i2],
                            old(func).blocks@[b2].statements@[i2]));
                    }
                }
                assert forall|b2: int, i2: int| 0 <= b2 < n
                    && 0 <= i2 < old(func).blocks@[b2].statements@.len()
                    implies same_phi_skeleton(
                    #[trigger] func.blocks@[b2].statements@[i2],
                    old(func).blocks@[b2].statements@[i2],
                ) by {
                    if b2 != y.0 as int {
                        assert(func.blocks@[b2] == pre_func.blocks@[b2]);
                        assert(same_phi_skeleton(pre_func.blocks@[b2].statements@[i2],
                            old(func).blocks@[b2].statements@[i2]));
                    } else {
                        assert(same_phi_skeleton(func.blocks@[b2].statements@[i2],
                            pre_func.blocks@[b2].statements@[i2]));
                        assert(same_phi_skeleton(pre_func.blocks@[b2].statements@[i2],
                            old(func).blocks@[b2].statements@[i2]));
                    }
                }
            }
        }
        t = t + 1;
    }
}

/// Visit one block for renaming: rewrite each ordinary assignment's reads
/// to current names and coin a fresh local for its target, rewrite the
/// terminator's read, then point the successors' φs here. The list of
/// original locals whose stacks grew is handed back so the caller can pop
/// them when the subtree is done.
fn rename_block(
    func: &mut Function,
    stacks: &mut IndexMap<Local, Vec<Local>>,
    block: BasicBlockId,
    nlocals0: usize,
) -> (pushed: Vec<Local>)
    requires
        old(func).wf(),
        block.0 < old(func).n(),
        old(stacks)@.len() == nlocals0,
        nlocals0 <= old(func).locals@.len(),
        forall|l2: int| 0 <= l2 < nlocals0 ==> (#[trigger] old(stacks)@[l2])@.len() >= 1,
        forall|l2: int, k3: int| 0 <= l2 < nlocals0 && 0 <= k3 < old(stacks)@[l2]@.len()
            ==> (#[trigger] old(stacks)@[l2]@[k3]).0 < old(func).locals@.len(),
        forall|i2: int| 0 <= i2 < old(func).blocks@[block.0 as int].statements@.len()
            && (#[trigger] old(func).blocks@[block.0 as int].statements@[i2]) is Assign
            ==> old(func).blocks@[block.0 as int].statements@[i2]->Assign_lhs.0 < nlocals0,
    ensures
        final(func).wf(),
        final(func).n() == old(func).n(),
        final(func).arity == old(func).arity,
        final(func).preds == old(func).preds,
        final(func).succs == old(func).succs,
        final(func).entry == old(func).entry,
        final(func).exit == old(func).exit,
        final(func).locals@.len() >= old(func).locals@.len(),
        forall|l2: int| 0 <= l2 < old(func).locals@.len()
            ==> #[trigger] final(func).locals@[l2] == old(func).locals@[l2],
        final(stacks)@.len() == nlocals0,
        forall|l2: int| 0 <= l2 < nlocals0 ==> (#[trigger] final(stacks)@[l2])@.len() >= 1,
        forall|l2: int, k3: int| 0 <= l2 < nlocals0 && 0 <= k3 < final(stacks)@[l2]@.len()
            ==> (#[trigger] final(stacks)@[l2]@[k3]).0 < final(func).locals@.len(),
        forall|k3: int| 0 <= k3 < pushed@.len() ==> (#[trigger] pushed@[k3]).0 < nlocals0,
        forall|b2: int| 0 <= b2 < old(func).n() ==> term_same_targets(
            old(func).blocks@[b2].terminator,
            #[trigger] final(func).blocks@[b2].terminator,
        ),
        // Other blocks keep their statement shapes and targets.
        forall|b2: int| 0 <= b2 < old(func).n()
            ==> #[trigger] final(func).blocks@[b2].statements@.len()
                == old(func).blocks@[b2].statements@.len(),
        forall|b2: int, i2: int| 0 <= b2 < old(func).n() && b2 != block.0 as int
            && 0 <= i2 < old(func).blocks@[b2].statements@.len()
            ==> stmt_same_lhs(
                #[trigger] final(func).blocks@[b2].statements@[i2],
                old(func).blocks@[b2].statements@[i2],
            ),
        // This block: every assignment was pointed at a freshly coined local,
        // in strictly increasing order, and nothing else became an assignment.
        forall|i2: int| 0 <= i2 < old(func).blocks@[block.0 as int].statements@.len()
            ==> ((#[trigger] final(func).blocks@[block.0 as int].statements@[i2]) is Assign
                <==> old(func).blocks@[block.0 as int].statements@[i2] is Assign),
        forall|i2: int| 0 <= i2 < old(func).blocks@[block.0 as int].statements@.len()
            && (#[trigger] final(func).blocks@[block.0 as int].statements@[i2]) is Assign
            ==> old(func).locals@.len()
                <= final(func).blocks@[block.0 as int].statements@[i2]->Assign_lhs.0
                < final(func).locals@.len(),
        forall|ia: int, ib: int| 0 <= ia < ib
            < old(func).blocks@[block.0 as int].statements@.len()
            && (#[trigger] final(func).blocks@[block.0 as int].statements@[ia]) is Assign
            && (#[trigger] final(func).blocks@[block.0 as int].statements@[ib]) is Assign
            ==> final(func).blocks@[block.0 as int].statements@[ia]->Assign_lhs.0
                < final(func).blocks@[block.0 as int].statements@[ib]->Assign_lhs.0,
        forall|b2: int, i2: int| 0 <= b2 < old(func).n()
            && 0 <= i2 < old(func).blocks@[b2].statements@.len()
            ==> same_phi_skeleton(
                #[trigger] final(func).blocks@[b2].statements@[i2],
                old(func).blocks@[b2].statements@[i2],
            ),
{
    let n = func.blocks.len();
    let mut pushed: Vec<Local> = Vec::new();
    let nstmts = func.blocks.at(block).statements.len();
    let mut i: usize = 0;
    while i < nstmts
        invariant
            func.wf(),
            n == func.n(),
            n == old(func).n(),
            block.0 < n,
            func.arity == old(func).arity,
            func.preds == old(func).preds,
            func.succs == old(func).succs,
            func.entry == old(func).entry,
            func.exit == old(func).exit,
            func.locals@.len() >= old(func).locals@.len(),
            forall|l2: int| 0 <= l2 < old(func).locals@.len()
                ==> #[trigger] func.locals@[l2] == old(func).locals@[l2],
            nstmts == func.blocks@[block.0 as int].statements@.len(),
            0 <= i <= nstmts,
            stacks@.len() == nlocals0,
            nlocals0 <= old(func).locals@.len(),
            forall|l2: int| 0 <= l2 < nlocals0 ==> (#[trigger] stacks@[l2])@.len() >= 1,
            forall|l2: int, k3: int| 0 <= l2 < nlocals0 && 0 <= k3 < stacks@[l2]@.len()
                ==> (#[trigger] stacks@[l2]@[k3]).0 < func.locals@.len(),
            forall|k3: int| 0 <= k3 < pushed@.len() ==> (#[trigger] pushed@[k3]).0 < nlocals0,
            forall|b2: int| 0 <= b2 < n ==> term_same_targets(
                old(func).blocks@[b2].terminator,
                #[trigger] func.blocks@[b2].terminator,
            ),
            forall|b2: int| 0 <= b2 < n
                ==> #[trigger] func.blocks@[b2].statements@.len()
                    == old(func).blocks@[b2].statements@.len(),
            forall|b2: int, i2: int| 0 <= b2 < n && b2 != block.0 as int
                && 0 <= i2 < old(func).blocks@[b2].statements@.len()
                ==> #[trigger] func.blocks@[b2].statements@[i2]
                    == old(func).blocks@[b2].statements@[i2],
            forall|i2: int| i <= i2 < nstmts
                ==> #[trigger] func.blocks@[block.0 as int].statements@[i2]
                    == old(func).blocks@[block.0 as int].statements@[i2],
            forall|i2: int| 0 <= i2 < nstmts
                && (#[trigger] old(func).blocks@[block.0 as int].statements@[i2]) is Assign
                ==> old(func).blocks@[block.0 as int].statements@[i2]->Assign_lhs.0
                    < nlocals0,
            forall|i2: int| 0 <= i2 < i
                ==> ((#[trigger] func.blocks@[block.0 as int].statements@[i2]) is Assign
                    <==> old(func).blocks@[block.0 as int].statements@[i2] is Assign),
            forall|i2: int| 0 <= i2 < i
                && (#[trigger] func.blocks@[block.0 as int].statements@[i2]) is Assign
                ==> old(func).locals@.len()
                    <= func.blocks@[block.0 as int].statements@[i2]->Assign_lhs.0
                    < func.locals@.len(),
            forall|ia: int, ib: int| 0 <= ia < ib < i
                && (#[trigger] func.blocks@[block.0 as int].statements@[ia]) is Assign
                && (#[trigger] func.blocks@[block.0 as int].statements@[ib]) is Assign
                ==> func.blocks@[block.0 as int].statements@[ia]->Assign_lhs.0
                    < func.blocks@[block.0 as int].statements@[ib]->Assign_lhs.0,
            forall|b2: int, i2: int| 0 <= b2 < n
                && 0 <= i2 < old(func).blocks@[b2].statements@.len()
                ==> same_phi_skeleton(
                    #[trigger] func.blocks@[b2].statements@[i2],
                    old(func).blocks@[b2].statements@[i2],
                ),
        decreases nstmts - i,
    {
        // Take the statement out, rewrite it, and put it back.
        let ghost pre_func = *func;
        let mut current = Statement::Nop;
        {
            let blk = func.blocks.get_mut(block);
            let slot = &mut blk.statements[i];
            core::mem::swap(slot, &mut current);
        }
        proof {
            assert(stmt_wf(pre_func.blocks@[block.0 as int].statements@[i as int],
                pre_func.locals@.len() as int, n as int));
            assert(stmt_wf(current, func.locals@.len() as int, n as int));
        }
        let replacement: Statement = match current {
            Statement::Nop => Statement::Nop,
            Statement::Assign { lhs, rhs } => {
                let new_rhs: Rvalue = match rhs {
                    Rvalue::Use(o) => Rvalue::Use(rewrite_operand(stacks, o, nlocals0)),
                    Rvalue::BinaryOp { op, lhs: a, rhs: bb } => Rvalue::BinaryOp {
                        op,
                        lhs: rewrite_operand(stacks, a, nlocals0),
                        rhs: rewrite_operand(stacks, bb, nlocals0),
                    },
                    Rvalue::Phi(entries) => Rvalue::Phi(entries),
                };
                if lhs.0 < nlocals0 {
                    let ghost len_before = func.locals@.len() as int;
                    let ty = *func.locals.at(lhs);
                    let fresh = func.locals.push(ty);
                    let st = stacks.get_mut(lhs);
                    st.push(fresh);
                    pushed.push(lhs);
                    proof {
                        assert(fresh.0 == len_before);
                        assert forall|i2: int| 0 <= i2 < i
                            && (#[trigger] func.blocks@[block.0 as int].statements@[i2])
                                is Assign
                            implies func.blocks@[block.0 as int].statements@[i2]
                                ->Assign_lhs.0 < len_before by {}
                    }
                    Statement::Assign { lhs: fresh, rhs: new_rhs }
                } else {
                    // Unreachable: the caller hands over a block whose
                    // assignments all target original locals.
                    proof {
                        assert(current is Assign && current->Assign_lhs == lhs);
                        assert(current
                            == pre_func.blocks@[block.0 as int].statements@[i as int]);
                        assert(pre_func.blocks@[block.0 as int].statements@[i as int]
                            == old(func).blocks@[block.0 as int].statements@[i as int]);
                        assert(false);
                    }
                    Statement::Assign { lhs, rhs: new_rhs }
                }
            }
        };
        proof {
            assert forall|l2: int| 0 <= l2 < nlocals0
                implies (#[trigger] stacks@[l2])@.last().0 < func.locals@.len() by {
                assert(stacks@[l2]@[stacks@[l2]@.len() - 1].0 < func.locals@.len());
            }
            assert(stmt_wf(replacement, func.locals@.len() as int, n as int));
        }
        let ghost mid_func = *func;
        {
            let blk = func.blocks.get_mut(block);
            let slot = &mut blk.statements[i];
            *slot = replacement;
        }
        proof {
            assert forall|b3: int| 0 <= b3 < n implies term_same_targets(
                mid_func.blocks@[b3].terminator,
                #[trigger] func.blocks@[b3].terminator,
            ) by {
                if b3 != block.0 as int {
                    assert(func.blocks@[b3] == mid_func.blocks@[b3]);
                }
            }
            assert forall|b3: int| 0 <= b3 < n implies block_wf(
                #[trigger] func.blocks@[b3],
                func.locals@.len() as int,
                n as int,
            ) by {
                if b3 != block.0 as int {
                    assert(func.blocks@[b3] == mid_func.blocks@[b3]);
                    assert(block_wf(mid_func.blocks@[b3],
                        mid_func.locals@.len() as int, n as int));
                } else {
                    assert forall|i2: int| 0 <= i2
                        < func.blocks@[b3].statements@.len() implies stmt_wf(
                        #[trigger] func.blocks@[b3].statements@[i2],
                        func.locals@.len() as int,
                        n as int,
                    ) by {
                        if i2 != i as int {
                            assert(func.blocks@[b3].statements@[i2]
                                == mid_func.blocks@[b3].statements@[i2]);
                            assert(stmt_wf(mid_func.blocks@[b3].statements@[i2],
                                mid_func.locals@.len() as int, n as int));
                        }
                    }
                }
            }
            lemma_wf_preserved(mid_func, *func);
        }
        i = i + 1;
    }

    // The terminator's read.
    let ghost pre_term = *func;
    let term = func.blocks.at(block).terminator;
    let new_term: Terminator = match term {
        Terminator::Jump(t2) => Terminator::Jump(t2),
        Terminator::JumpIf { cond, then_bb, else_bb } => Terminator::JumpIf {
            cond: rewrite_operand(stacks, cond, nlocals0),
            then_bb,
            else_bb,
        },
        Terminator::Return(l2) => {
            if l2.0 < nlocals0 {
                Terminator::Return(current_name(stacks, l2))
            } else {
                Terminator::Return(l2)
            }
        }
    };
    proof {
        assert(term_wf(pre_term.blocks@[block.0 as int].terminator,
            pre_term.locals@.len() as int, n as int));
        assert forall|l2: int| 0 <= l2 < nlocals0
            implies (#[trigger] stacks@[l2])@.last().0 < func.locals@.len() by {
            assert(stacks@[l2]@[stacks@[l2]@.len() - 1].0 < func.locals@.len());
        }
        assert(term_wf(new_term, func.locals@.len() as int, n as int));
        assert(term_same_targets(term, new_term));
    }
    {
        let blk = func.blocks.get_mut(block);
        blk.terminator = new_term;
    }
    proof {
        assert forall|b3: int| 0 <= b3 < n implies term_same_targets(
            pre_term.blocks@[b3].terminator,
            #[trigger] func.blocks@[b3].terminator,
        ) by {
            if b3 != block.0 as int {
                assert(func.blocks@[b3] == pre_term.blocks@[b3]);
            }
        }
        assert forall|b3: int| 0 <= b3 < n implies block_wf(
            #[trigger] func.blocks@[b3],
            func.locals@.len() as int,
            n as int,
        ) by {
            if b3 != block.0 as int {
                assert(func.blocks@[b3] == pre_term.blocks@[b3]);
                assert(block_wf(pre_term.blocks@[b3], pre_term.locals@.len() as int,
                    n as int));
            } else {
                assert forall|i2: int| 0 <= i2
                    < func.blocks@[b3].statements@.len() implies stmt_wf(
                    #[trigger] func.blocks@[b3].statements@[i2],
                    func.locals@.len() as int,
                    n as int,
                ) by {
                    assert(func.blocks@[b3].statements@[i2]
                        == pre_term.blocks@[b3].statements@[i2]);
                    assert(stmt_wf(pre_term.blocks@[b3].statements@[i2],
                        pre_term.locals@.len() as int, n as int));
                }
            }
        }
        lemma_wf_preserved(pre_term, *func);
    }

    // Point the successors' φs here.
    let ghost pre_phis = *func;
    rewrite_succ_phis(func, stacks, block, nlocals0);
    proof {
        assert forall|b2: int, i2: int| 0 <= b2 < n && b2 != block.0 as int
            && 0 <= i2 < old(func).blocks@[b2].statements@.len()
            implies stmt_same_lhs(
            #[trigger] func.blocks@[b2].statements@[i2],
            old(func).blocks@[b2].statements@[i2],
        ) by {
            assert(stmt_same_lhs(func.blocks@[b2].statements@[i2],
                pre_phis.blocks@[b2].statements@[i2]));
            assert(pre_phis.blocks@[b2].statements@[i2]
                == old(func).blocks@[b2].statements@[i2]);
        }
        assert forall|i2: int| 0 <= i2
            < old(func).blocks@[block.0 as int].statements@.len()
            implies ((#[trigger] func.blocks@[block.0 as int].statements@[i2]) is Assign
                <==> old(func).blocks@[block.0 as int].statements@[i2] is Assign) by {
            assert(stmt_same_lhs(func.blocks@[block.0 as int].statements@[i2],
                pre_phis.blocks@[block.0 as int].statements@[i2]));
        }
        assert forall|i2: int| 0 <= i2
            < old(func).blocks@[block.0 as int].statements@.len()
            && (#[trigger] func.blocks@[block.0 as int].statements@[i2]) is Assign
            implies old(func).locals@.len()
                <= func.blocks@[block.0 as int].statements@[i2]->Assign_lhs.0
                < func.locals@.len() by {
            assert(stmt_same_lhs(func.blocks@[block.0 as int].statements@[i2],
                pre_phis.blocks@[block.0 as int].statements@[i2]));
        }
        assert forall|ia: int, ib: int| 0 <= ia < ib
            < old(func).blocks@[block.0 as int].statements@.len()
            && (#[trigger] func.blocks@[block.0 as int].statements@[ia]) is Assign
            && (#[trigger] func.blocks@[block.0 as int].statements@[ib]) is Assign
            implies func.blocks@[block.0 as int].statements@[ia]->Assign_lhs.0
                < func.blocks@[block.0 as int].statements@[ib]->Assign_lhs.0 by {
            assert(stmt_same_lhs(func.blocks@[block.0 as int].statements@[ia],
                pre_phis.blocks@[block.0 as int].statements@[ia]));
            assert(stmt_same_lhs(func.blocks@[block.0 as int].statements@[ib],
                pre_phis.blocks@[block.0 as int].statements@[ib]));
        }
    }
    pushed
}

} // verus!
