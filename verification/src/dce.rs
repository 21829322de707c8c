//! Dead-code elimination over SSA form.
//!
//! The use sites of every local are collected from statements and
//! terminators; a worklist starts with every defined local. A local whose
//! use set is empty has its defining statement overwritten with `Nop`, and
//! every local the removed right-hand side read loses that site and goes
//! back on the worklist. Use counts only fall, so the sweep ends.

use vstd::prelude::*;

use crate::dataflow::live_variable::{operand_reads, rvalue_gen, term_gen};
use crate::index::IndexMap;
use crate::mir::{
    block_wf, lemma_wf_preserved, stmt_wf, term_same_targets, BasicBlockId, Function, Local,
    Operand, Rvalue, Statement, Terminator,
};

verus! {

/// One use or definition site: a block and a statement index, where an
/// index just past the statements stands for the terminator.
type Site = (usize, usize);

/// Append every local `rhs` reads to `out`, covering each read at least
/// once.
fn rhs_locals(rhs: &Rvalue, out: &mut Vec<Local>, nlocals: usize)
    requires
        rvalue_ok(*rhs, nlocals as int),
        forall|k: int| 0 <= k < old(out)@.len() ==> (#[trigger] old(out)@[k]).0 < nlocals,
    ensures
        forall|k: int| 0 <= k < final(out)@.len() ==> (#[trigger] final(out)@[k]).0 < nlocals,
        forall|l: int| #[trigger] rvalue_gen(*rhs, l)
            ==> exists|k: int| 0 <= k < final(out)@.len()
                && (#[trigger] final(out)@[k]).0 as int == l,
{
    match rhs {
        Rvalue::Use(Operand::Local(l)) => {
            out.push(*l);
            proof {
                assert(out@[out@.len() - 1] == *l);
            }
        }
        Rvalue::BinaryOp { lhs, rhs: r2, .. } => {
            let ghost mut w1: int = -1;
            match lhs {
                Operand::Local(l) => {
                    out.push(*l);
                    proof {
                        w1 = out@.len() - 1;
                        assert(out@[w1] == *l);
                    }
                }
                _ => {}
            }
            let ghost mut w2: int = -1;
            match r2 {
                Operand::Local(l) => {
                    out.push(*l);
                    proof {
                        w2 = out@.len() - 1;
                        assert(out@[w2] == *l);
                    }
                }
                _ => {}
            }
            proof {
                assert forall|l2: int| #[trigger] rvalue_gen(*rhs, l2)
                    implies exists|k: int| 0 <= k < out@.len()
                        && (#[trigger] out@[k]).0 as int == l2 by {
                    if operand_reads(*lhs, l2) {
                        assert(0 <= w1 < out@.len());
                        assert(out@[w1].0 as int == l2);
                    } else {
                        assert(operand_reads(*r2, l2));
                        assert(0 <= w2 < out@.len());
                        assert(out@[w2].0 as int == l2);
                    }
                }
            }
        }
        Rvalue::Phi(entries) => {
            let ne = entries.len();
            let mut e: usize = 0;
            while e < ne
                invariant
                    ne == entries@.len(),
                    0 <= e <= ne,
                    forall|k: int| 0 <= k < entries@.len()
                        ==> (#[trigger] entries@[k]).1.0 < nlocals,
                    forall|k: int| 0 <= k < out@.len() ==> (#[trigger] out@[k]).0 < nlocals,
                    forall|k: int|
                        #![trigger entries@[k]]
                        0 <= k < e ==> exists|k2: int| 0 <= k2 < out@.len()
                            && (#[trigger] out@[k2]) == entries@[k].1,
                decreases ne - e,
            {
                let ghost pre = out@;
                out.push(entries[e].1);
                proof {
                    assert(out@[out@.len() - 1] == entries@[e as int].1);
                    assert forall|k: int|
                        #![trigger entries@[k]]
                        0 <= k < e + 1 implies exists|k2: int| 0 <= k2 < out@.len()
                            && (#[trigger] out@[k2]) == entries@[k].1 by {
                        if k < e {
                            let k2 = choose|k2: int| 0 <= k2 < pre.len()
                                && (#[trigger] pre[k2]) == entries@[k].1;
                            assert(out@[k2] == entries@[k].1);
                        }
                    }
                }
                e = e + 1;
            }
            proof {
                assert forall|l2: int| #[trigger] rvalue_gen(*rhs, l2)
                    implies exists|k: int| 0 <= k < out@.len()
                        && (#[trigger] out@[k]).0 as int == l2 by {
                    let k = choose|k: int| 0 <= k < entries@.len()
                        && (#[trigger] entries@[k]).1.0 == l2;
                    let k2 = choose|k2: int| 0 <= k2 < out@.len()
                        && (#[trigger] out@[k2]) == entries@[k].1;
                    assert(out@[k2].0 as int == l2);
                }
            }
        }
        _ => {}
    }
}

/// Are all locals read by `r` below `nlocals`?
pub open spec fn rvalue_ok(r: Rvalue, nlocals: int) -> bool {
    match r {
        Rvalue::Use(o) => match o {
            Operand::Local(l) => l.0 < nlocals,
            _ => true,
        },
        Rvalue::BinaryOp { lhs, rhs, .. } => (match lhs {
            Operand::Local(l) => l.0 < nlocals,
            _ => true,
        }) && (match rhs {
            Operand::Local(l) => l.0 < nlocals,
            _ => true,
        }),
        Rvalue::Phi(entries) => forall|k: int| 0 <= k < entries@.len()
            ==> (#[trigger] entries@[k]).1.0 < nlocals,
    }
}

/// Does the statement at `(b, i)` of `f` read local `l`?
pub open spec fn stmt_reads(f: Function, b: int, i: int, l: int) -> bool {
    match f.blocks@[b].statements@[i] {
        Statement::Assign { rhs, .. } => rvalue_gen(rhs, l),
        Statement::Nop => false,
    }
}

/// Is local `l` read anywhere in `f`, by a statement or a terminator?
pub open spec fn local_read(f: Function, l: int) -> bool {
    ||| exists|b: int, i: int| 0 <= b < f.n()
        && 0 <= i < f.blocks@[b].statements@.len() && #[trigger] stmt_reads(f, b, i, l)
    ||| exists|b: int| 0 <= b < f.n()
        && #[trigger] term_gen(f.blocks@[b].terminator, l)
}

/// Is the site `(b, i)` listed?
pub open spec fn site_tracked(row: Seq<Site>, b: int, i: int) -> bool {
    exists|k: int| 0 <= k < row.len() && (#[trigger] row[k]).0 as int == b
        && row[k].1 as int == i
}

/// The use table is sound: every read the function still performs is
/// listed under the local it reads.
pub open spec fn uses_cover(f: Function, uses: Seq<Vec<Site>>, nlocals: int) -> bool {
    &&& forall|l: int, b: int, i: int| 0 <= l < nlocals && 0 <= b < f.n()
        && 0 <= i < f.blocks@[b].statements@.len() && #[trigger] stmt_reads(f, b, i, l)
        ==> site_tracked(uses[l]@, b, i)
    &&& forall|l: int, b: int| 0 <= l < nlocals && 0 <= b < f.n()
        && #[trigger] term_gen(f.blocks@[b].terminator, l)
        ==> site_tracked(uses[l]@, b, f.blocks@[b].statements@.len() as int)
}

/// Remove every occurrence of `site` from `v`: a right-hand side can read
/// the same local twice, and both reads die with the statement.
fn remove_site(v: &mut Vec<Site>, site: Site)
    ensures
        final(v)@.len() <= old(v)@.len(),
        forall|k: int| 0 <= k < final(v)@.len()
            ==> (#[trigger] final(v)@[k]) != site,
        forall|s2: Site| s2 != site && #[trigger] site_in(old(v)@, s2)
            ==> site_in(final(v)@, s2),
{
    let nv = v.len();
    let mut kept: Vec<Site> = Vec::new();
    let mut k: usize = 0;
    while k < nv
        invariant
            0 <= k <= nv,
            nv == v@.len(),
            v@ == old(v)@,
            kept@.len() <= k,
            forall|k2: int| 0 <= k2 < kept@.len() ==> (#[trigger] kept@[k2]) != site,
            forall|s2: Site| s2 != site
                && #[trigger] site_in(old(v)@.subrange(0, k as int), s2)
                ==> site_in(kept@, s2),
        decreases nv - k,
    {
        let e = v[k];
        let ghost kept0 = kept@;
        if !(e.0 == site.0 && e.1 == site.1) {
            kept.push(e);
        }
        proof {
            assert forall|s2: Site| s2 != site
                && #[trigger] site_in(old(v)@.subrange(0, k + 1), s2)
                implies site_in(kept@, s2) by {
                let k2 = choose|k2: int| 0 <= k2 < k + 1
                    && #[trigger] old(v)@.subrange(0, k + 1)[k2] == s2;
                if k2 < k {
                    assert(old(v)@.subrange(0, k as int)[k2] == s2);
                    assert(site_in(old(v)@.subrange(0, k as int), s2));
                    assert(site_in(kept0, s2));
                    let w = choose|w: int| 0 <= w < kept0.len() && kept0[w] == s2;
                    assert(kept@[w] == s2);
                    assert(site_in(kept@, s2));
                } else {
                    assert(e == s2);
                    assert(kept@[kept@.len() - 1] == s2);
                    assert(site_in(kept@, s2));
                }
            }
        }
        k = k + 1;
    }
    proof {
        assert(old(v)@.subrange(0, nv as int) =~= old(v)@);
    }
    *v = kept;
}

/// Does `s2` appear among the sites?
pub open spec fn site_in(v: Seq<Site>, s2: Site) -> bool {
    exists|k: int| 0 <= k < v.len() && v[k] == s2
}

/// Rewrite to `Nop` every assignment whose target is never used, following
/// the use chains of what each removal frees up.
///
/// The graph shape, the locals and every terminator stay untouched; each
/// statement is either the one that was there or a `Nop`.
pub fn dead_code_elimination(func: &mut Function)
    requires
        old(func).wf(),
    ensures
        final(func).wf(),
        final(func).n() == old(func).n(),
        final(func).arity == old(func).arity,
        final(func).locals == old(func).locals,
        final(func).preds == old(func).preds,
        final(func).succs == old(func).succs,
        final(func).entry == old(func).entry,
        final(func).exit == old(func).exit,
        forall|b: int| 0 <= b < old(func).n()
            ==> #[trigger] final(func).blocks@[b].terminator
                == old(func).blocks@[b].terminator,
        forall|b: int, i: int| 0 <= b < old(func).n()
            && 0 <= i < old(func).blocks@[b].statements@.len()
            ==> final(func).blocks@[b].statements@.len()
                == old(func).blocks@[b].statements@.len()
                && (#[trigger] final(func).blocks@[b].statements@[i]
                    == old(func).blocks@[b].statements@[i]
                    || final(func).blocks@[b].statements@[i] is Nop),
        // Soundness of the sweep: an assignment is erased only once nothing
        // that survives — statement or terminator — reads its target.
        forall|b: int, i: int| 0 <= b < old(func).n()
            && 0 <= i < old(func).blocks@[b].statements@.len()
            && (#[trigger] old(func).blocks@[b].statements@[i]) is Assign
            && final(func).blocks@[b].statements@[i] is Nop
            ==> !local_read(
                *final(func),
                old(func).blocks@[b].statements@[i]->Assign_lhs.0 as int,
            ),
{
    let n = func.blocks.len();
    let nlocals = func.locals.len();

    // Collect the use sites of every local and the defining site of each.
    let mut uses: IndexMap<Local, Vec<Site>> = IndexMap::with_capacity(nlocals);
    let mut def_site: IndexMap<Local, Option<Site>> = IndexMap::with_capacity(nlocals);
    let mut k: usize = 0;
    while k < nlocals
        invariant
            0 <= k <= nlocals,
            uses@.len() == k,
            def_site@.len() == k,
            forall|l2: int| 0 <= l2 < k ==> (#[trigger] def_site@[l2]) is None,
        decreases nlocals - k,
    {
        uses.push(Vec::new());
        def_site.push(None);
        k = k + 1;
    }
    let mut b: usize = 0;
    while b < n
        invariant
            func.wf(),
            n == func.n(),
            nlocals == func.locals@.len(),
            0 <= b <= n,
            uses@.len() == nlocals,
            def_site@.len() == nlocals,
            forall|l: int| 0 <= l < nlocals ==> match #[trigger] def_site@[l] {
                Some(site) => site.0 < n
                    && site.1 < func.blocks@[site.0 as int].statements@.len()
                    && func.blocks@[site.0 as int].statements@[site.1 as int] is Assign
                    && func.blocks@[site.0 as int].statements@[site.1 as int]
                        ->Assign_lhs == Local(l as usize),
                None => true,
            },
            forall|l: int, b2: int, i2: int| 0 <= l < nlocals && 0 <= b2 < b
                && 0 <= i2 < func.blocks@[b2].statements@.len()
                && #[trigger] stmt_reads(*func, b2, i2, l)
                ==> site_tracked(uses@[l]@, b2, i2),
            forall|l: int, b2: int| 0 <= l < nlocals && 0 <= b2 < b
                && #[trigger] term_gen(func.blocks@[b2].terminator, l)
                ==> site_tracked(uses@[l]@, b2,
                    func.blocks@[b2].statements@.len() as int),
        decreases n - b,
    {
        let nstmts = func.blocks.at(BasicBlockId(b)).statements.len();
        let mut i: usize = 0;
        while i < nstmts
            invariant
                func.wf(),
                n == func.n(),
                nlocals == func.locals@.len(),
                0 <= b < n,
                nstmts == func.blocks@[b as int].statements@.len(),
                0 <= i <= nstmts,
                uses@.len() == nlocals,
                def_site@.len() == nlocals,
                forall|l: int| 0 <= l < nlocals ==> match #[trigger] def_site@[l] {
                    Some(site) => site.0 < n
                        && site.1 < func.blocks@[site.0 as int].statements@.len()
                        && func.blocks@[site.0 as int].statements@[site.1 as int]
                            is Assign
                        && func.blocks@[site.0 as int].statements@[site.1 as int]
                            ->Assign_lhs == Local(l as usize),
                    None => true,
                },
                forall|l: int, b2: int, i2: int| 0 <= l < nlocals && 0 <= b2 < b as int
                    && 0 <= i2 < func.blocks@[b2].statements@.len()
                    && #[trigger] stmt_reads(*func, b2, i2, l)
                    ==> site_tracked(uses@[l]@, b2, i2),
                forall|l: int, b2: int| 0 <= l < nlocals && 0 <= b2 < b as int
                    && #[trigger] term_gen(func.blocks@[b2].terminator, l)
                    ==> site_tracked(uses@[l]@, b2,
                        func.blocks@[b2].statements@.len() as int),
                forall|l: int, i2: int| 0 <= l < nlocals && 0 <= i2 < i
                    && #[trigger] stmt_reads(*func, b as int, i2, l)
                    ==> site_tracked(uses@[l]@, b as int, i2),
            decreases nstmts - i,
        {
            let mut read: Vec<Local> = Vec::new();
            let mut target: Option<Local> = None;
            {
                let blk = func.blocks.at(BasicBlockId(b));
                proof {
                    assert(stmt_wf(blk.statements@[i as int], nlocals as int, n as int));
                }
                match &blk.statements[i] {
                    Statement::Assign { lhs, rhs } => {
                        rhs_locals(rhs, &mut read, nlocals);
                        target = Some(*lhs);
                    }
                    Statement::Nop => {}
                }
            }
            let ghost uses0 = uses@;
            let nread = read.len();
            let mut q: usize = 0;
            while q < nread
                invariant
                    nread == read@.len(),
                    0 <= q <= nread,
                    uses@.len() == nlocals,
                    forall|k2: int| 0 <= k2 < nread
                        ==> (#[trigger] read@[k2]).0 < nlocals,
                    // Rows only grow, so everything tracked stays tracked.
                    forall|l2: int, b2: int, i2: int| 0 <= l2 < nlocals
                        && #[trigger] site_tracked(uses0[l2]@, b2, i2)
                        ==> site_tracked(uses@[l2]@, b2, i2),
                    forall|q2: int| 0 <= q2 < q
                        ==> site_tracked(uses@[(#[trigger] read@[q2]).0 as int]@,
                            b as int, i as int),
                decreases nread - q,
            {
                let l = read[q];
                let ghost pre_uses = uses@;
                let row = uses.get_mut(l);
                row.push((b, i));
                proof {
                    assert(uses@[l.0 as int]@[uses@[l.0 as int]@.len() - 1] == (b, i));
                    assert forall|l2: int, b2: int, i2: int| 0 <= l2 < nlocals
                        && #[trigger] site_tracked(pre_uses[l2]@, b2, i2)
                        implies site_tracked(uses@[l2]@, b2, i2) by {
                        let k2 = choose|k2: int| 0 <= k2 < pre_uses[l2]@.len()
                            && (#[trigger] pre_uses[l2]@[k2]).0 as int == b2
                            && pre_uses[l2]@[k2].1 as int == i2;
                        assert(uses@[l2]@[k2] == pre_uses[l2]@[k2]);
                    }
                }
                q = q + 1;
            }
            proof {
                // Every local this statement reads is now tracked here.
                assert forall|l2: int| 0 <= l2 < nlocals
                    && #[trigger] stmt_reads(*func, b as int, i as int, l2)
                    implies site_tracked(uses@[l2]@, b as int, i as int) by {
                    match func.blocks@[b as int].statements@[i as int] {
                        Statement::Assign { rhs: r, .. } => {
                            assert(rvalue_gen(r, l2));
                            let k2 = choose|k2: int| 0 <= k2 < read@.len()
                                && (#[trigger] read@[k2]).0 as int == l2;
                            assert(site_tracked(uses@[read@[k2].0 as int]@, b as int,
                                i as int));
                        }
                        Statement::Nop => {}
                    }
                }
            }
            match target {
                Some(lhs) => {
                    proof {
                        assert(lhs.0 < nlocals);
                    }
                    let slot = def_site.get_mut(lhs);
                    *slot = Some((b, i));
                }
                None => {}
            }
            i = i + 1;
        }
        // Terminator reads keep their locals alive for good.
        let ghost uses1 = uses@;
        let term = func.blocks.at(BasicBlockId(b)).terminator;
        match term {
            Terminator::JumpIf { cond: Operand::Local(l), .. } => {
                proof {
                    assert(crate::mir::term_wf(func.blocks@[b as int].terminator,
                        nlocals as int, n as int));
                }
                let row = uses.get_mut(l);
                row.push((b, nstmts));
                proof {
                    assert(uses@[l.0 as int]@[uses@[l.0 as int]@.len() - 1]
                        == (b, nstmts));
                }
            }
            Terminator::Return(l) => {
                proof {
                    assert(crate::mir::term_wf(func.blocks@[b as int].terminator,
                        nlocals as int, n as int));
                }
                let row = uses.get_mut(l);
                row.push((b, nstmts));
                proof {
                    assert(uses@[l.0 as int]@[uses@[l.0 as int]@.len() - 1]
                        == (b, nstmts));
                }
            }
            _ => {}
        }
        proof {
            assert forall|l2: int, b3: int, i3: int| 0 <= l2 < nlocals
                && #[trigger] site_tracked(uses1[l2]@, b3, i3)
                implies site_tracked(uses@[l2]@, b3, i3) by {
                let k2 = choose|k2: int| 0 <= k2 < uses1[l2]@.len()
                    && (#[trigger] uses1[l2]@[k2]).0 as int == b3
                    && uses1[l2]@[k2].1 as int == i3;
                assert(uses@[l2]@[k2] == uses1[l2]@[k2]);
            }
            assert forall|l2: int, b2: int| 0 <= l2 < nlocals && 0 <= b2 < b + 1
                && #[trigger] term_gen(func.blocks@[b2].terminator, l2)
                implies site_tracked(uses@[l2]@, b2,
                    func.blocks@[b2].statements@.len() as int) by {
                if b2 == b as int {
                    match func.blocks@[b2].terminator {
                        Terminator::JumpIf { cond, .. } => {
                            match cond {
                                Operand::Local(x) => {
                                    assert(x.0 as int == l2);
                                }
                                Operand::Constant(_) => {}
                            }
                        }
                        Terminator::Return(x) => {
                            assert(x.0 as int == l2);
                        }
                        Terminator::Jump(_) => {}
                    }
                }
            }
        }
        b = b + 1;
    }

    // Seed the worklist with every defined local.
    let mut worklist: Vec<Local> = Vec::new();
    let mut l: usize = 0;
    while l < nlocals
        invariant
            0 <= l <= nlocals,
            def_site@.len() == nlocals,
            forall|k2: int| 0 <= k2 < worklist@.len()
                ==> (#[trigger] worklist@[k2]).0 < nlocals,
        decreases nlocals - l,
    {
        if def_site.at(Local(l)).is_some() {
            worklist.push(Local(l));
        }
        l = l + 1;
    }

    let mut rounds: usize = 0;
    while worklist.len() > 0 && rounds < usize::MAX
        invariant
            func.wf(),
            n == func.n(),
            n == old(func).n(),
            nlocals == func.locals@.len(),
            func.arity == old(func).arity,
            func.locals == old(func).locals,
            func.preds == old(func).preds,
            func.succs == old(func).succs,
            func.entry == old(func).entry,
            func.exit == old(func).exit,
            uses@.len() == nlocals,
            def_site@.len() == nlocals,
            forall|k2: int| 0 <= k2 < worklist@.len()
                ==> (#[trigger] worklist@[k2]).0 < nlocals,
            forall|l2: int| 0 <= l2 < nlocals ==> match #[trigger] def_site@[l2] {
                Some(site) => site.0 < n
                    && site.1 < func.blocks@[site.0 as int].statements@.len()
                    && func.blocks@[site.0 as int].statements@[site.1 as int] is Assign
                    && func.blocks@[site.0 as int].statements@[site.1 as int]
                        ->Assign_lhs == Local(l2 as usize),
                None => true,
            },
            forall|b2: int| 0 <= b2 < n
                ==> #[trigger] func.blocks@[b2].terminator
                    == old(func).blocks@[b2].terminator,
            forall|b2: int, i2: int| 0 <= b2 < n
                && 0 <= i2 < old(func).blocks@[b2].statements@.len()
                ==> func.blocks@[b2].statements@.len()
                    == old(func).blocks@[b2].statements@.len()
                    && (#[trigger] func.blocks@[b2].statements@[i2]
                        == old(func).blocks@[b2].statements@[i2]
                        || func.blocks@[b2].statements@[i2] is Nop),
            uses_cover(*func, uses@, nlocals as int),
            forall|b2: int, i2: int| 0 <= b2 < n
                && 0 <= i2 < old(func).blocks@[b2].statements@.len()
                && (#[trigger] old(func).blocks@[b2].statements@[i2]) is Assign
                && func.blocks@[b2].statements@[i2] is Nop
                ==> !local_read(
                    *func,
                    old(func).blocks@[b2].statements@[i2]->Assign_lhs.0 as int,
                ),
        decreases usize::MAX - rounds,
    {
        rounds = rounds + 1;
        let v = worklist.pop().unwrap();
        if uses.at(v).len() > 0 {
            continue ;
        }
        let site = match *def_site.at(v) {
            Some(site) => site,
            None => {
                continue ;
            }
        };
        proof {
            // The popped local's uses are exhausted and its site still
            // holds its assignment.
            assert(uses@[v.0 as int]@.len() == 0);
            assert(func.blocks@[site.0 as int].statements@[site.1 as int] is Assign
                && func.blocks@[site.0 as int].statements@[site.1 as int]->Assign_lhs
                    == v);
        }
        // Clear the site so the same local is not swept twice.
        {
            let slot = def_site.get_mut(v);
            *slot = None;
        }
        let ghost pre_func = *func;
        let mut removed = Statement::Nop;
        {
            let blk = func.blocks.get_mut(BasicBlockId(site.0));
            let slot = &mut blk.statements[site.1];
            core::mem::swap(slot, &mut removed);
        }
        proof {
            assert(stmt_wf(pre_func.blocks@[site.0 as int].statements@[site.1 as int],
                nlocals as int, n as int));
            assert(stmt_wf(removed, nlocals as int, n as int));
            assert forall|b3: int| 0 <= b3 < n implies term_same_targets(
                pre_func.blocks@[b3].terminator,
                #[trigger] func.blocks@[b3].terminator,
            ) by {
                if b3 != site.0 as int {
                    assert(func.blocks@[b3] == pre_func.blocks@[b3]);
                }
            }
            assert forall|b3: int| 0 <= b3 < n implies block_wf(
                #[trigger] func.blocks@[b3],
                nlocals as int,
                n as int,
            ) by {
                if b3 != site.0 as int {
                    assert(func.blocks@[b3] == pre_func.blocks@[b3]);
                    assert(block_wf(pre_func.blocks@[b3], nlocals as int, n as int));
                } else {
                    assert forall|i3: int| 0 <= i3
                        < func.blocks@[b3].statements@.len() implies stmt_wf(
                        #[trigger] func.blocks@[b3].statements@[i3],
                        nlocals as int,
                        n as int,
                    ) by {
                        if i3 != site.1 as int {
                            assert(func.blocks@[b3].statements@[i3]
                                == pre_func.blocks@[b3].statements@[i3]);
                            assert(stmt_wf(pre_func.blocks@[b3].statements@[i3],
                                nlocals as int, n as int));
                        }
                    }
                }
            }
            lemma_wf_preserved(pre_func, *func);
            assert forall|b2: int, i2: int| 0 <= b2 < n
                && 0 <= i2 < old(func).blocks@[b2].statements@.len()
                implies func.blocks@[b2].statements@.len()
                    == old(func).blocks@[b2].statements@.len()
                    && (#[trigger] func.blocks@[b2].statements@[i2]
                        == old(func).blocks@[b2].statements@[i2]
                        || func.blocks@[b2].statements@[i2] is Nop) by {
                if b2 != site.0 as int {
                    assert(func.blocks@[b2] == pre_func.blocks@[b2]);
                } else if i2 != site.1 as int {
                    assert(func.blocks@[b2].statements@[i2]
                        == pre_func.blocks@[b2].statements@[i2]);
                }
            }
            // Other locals' recorded sites are untouched: no two locals
            // share a defining statement.
            assert forall|l2: int| 0 <= l2 < nlocals implies match #[trigger] def_site@[
                l2] {
                Some(site2) => site2.0 < n
                    && site2.1 < func.blocks@[site2.0 as int].statements@.len()
                    && func.blocks@[site2.0 as int].statements@[site2.1 as int]
                        is Assign
                    && func.blocks@[site2.0 as int].statements@[site2.1 as int]
                        ->Assign_lhs == Local(l2 as usize),
                None => true,
            } by {
                match def_site@[l2] {
                    Some(site2) => {
                        if site2 == site {
                            assert(pre_func.blocks@[site.0 as int].statements@[site.1
                                as int]->Assign_lhs == Local(l2 as usize));
                            assert(l2 == v.0 as int);
                            assert(def_site@[v.0 as int] is None);
                            assert(false);
                        } else if site2.0 == site.0 && site2.1 == site.1 {
                            assert(site2 == site);
                        } else {
                            assert(func.blocks@[site2.0 as int].statements@[site2.1
                                as int] == pre_func.blocks@[site2.0 as int].statements@[
                                site2.1 as int]);
                        }
                    }
                    None => {}
                }
            }
            // Reads only disappeared, so the table still covers them.
            assert forall|l2: int, b2: int, i2: int| 0 <= l2 < nlocals && 0 <= b2 < n
                && 0 <= i2 < func.blocks@[b2].statements@.len()
                && #[trigger] stmt_reads(*func, b2, i2, l2)
                implies site_tracked(uses@[l2]@, b2, i2) by {
                if b2 == site.0 as int && i2 == site.1 as int {
                    assert(!(func.blocks@[b2].statements@[i2] is Assign));
                } else {
                    assert(func.blocks@[b2].statements@[i2]
                        == pre_func.blocks@[b2].statements@[i2]);
                    assert(stmt_reads(pre_func, b2, i2, l2));
                }
            }
            // Nothing that survives reads the swept local.
            assert forall|x: int| #[trigger] local_read(*func, x)
                implies local_read(pre_func, x) by {
                if exists|b2: int, i2: int| 0 <= b2 < n
                    && 0 <= i2 < func.blocks@[b2].statements@.len()
                    && #[trigger] stmt_reads(*func, b2, i2, x) {
                    let (b2, i2) = choose|b2: int, i2: int| 0 <= b2 < n
                        && 0 <= i2 < func.blocks@[b2].statements@.len()
                        && #[trigger] stmt_reads(*func, b2, i2, x);
                    if b2 == site.0 as int && i2 == site.1 as int {
                        assert(!(func.blocks@[b2].statements@[i2] is Assign));
                        assert(false);
                    }
                    assert(stmt_reads(pre_func, b2, i2, x));
                }
            }
            assert(!local_read(pre_func, v.0 as int)) by {
                if local_read(pre_func, v.0 as int) {
                    if exists|b2: int, i2: int| 0 <= b2 < n
                        && 0 <= i2 < pre_func.blocks@[b2].statements@.len()
                        && #[trigger] stmt_reads(pre_func, b2, i2, v.0 as int) {
                        let (b2, i2) = choose|b2: int, i2: int| 0 <= b2 < n
                            && 0 <= i2 < pre_func.blocks@[b2].statements@.len()
                            && #[trigger] stmt_reads(pre_func, b2, i2, v.0 as int);
                        assert(site_tracked(uses@[v.0 as int]@, b2, i2));
                        assert(false);
                    } else {
                        let b2 = choose|b2: int| 0 <= b2 < n
                            && #[trigger] term_gen(pre_func.blocks@[b2].terminator,
                            v.0 as int);
                        assert(site_tracked(uses@[v.0 as int]@, b2,
                            pre_func.blocks@[b2].statements@.len() as int));
                        assert(false);
                    }
                }
            }
            assert(!local_read(*func, v.0 as int));
            // The sweep stays sound for every pair erased so far.
            assert forall|b2: int, i2: int| 0 <= b2 < n
                && 0 <= i2 < old(func).blocks@[b2].statements@.len()
                && (#[trigger] old(func).blocks@[b2].statements@[i2]) is Assign
                && func.blocks@[b2].statements@[i2] is Nop
                implies !local_read(
                *func,
                old(func).blocks@[b2].statements@[i2]->Assign_lhs.0 as int,
            ) by {
                if b2 == site.0 as int && i2 == site.1 as int {
                    assert(pre_func.blocks@[b2].statements@[i2]
                        == old(func).blocks@[b2].statements@[i2]);
                    assert(old(func).blocks@[b2].statements@[i2]->Assign_lhs == v);
                } else {
                    assert(func.blocks@[b2].statements@[i2]
                        == pre_func.blocks@[b2].statements@[i2]);
                    if pre_func.blocks@[b2].statements@[i2] is Nop {
                        assert(!local_read(pre_func,
                            old(func).blocks@[b2].statements@[i2]->Assign_lhs.0
                                as int));
                    }
                }
            }
        }
        // Free the removed right-hand side's reads.
        let mut read: Vec<Local> = Vec::new();
        match &removed {
            Statement::Assign { rhs, .. } => {
                rhs_locals(rhs, &mut read, nlocals);
            }
            Statement::Nop => {}
        }
        let nread = read.len();
        let mut q: usize = 0;
        while q < nread
            invariant
                func.wf(),
                n == func.n(),
                nlocals == func.locals@.len(),
                nread == read@.len(),
                0 <= q <= nread,
                uses@.len() == nlocals,
                site.0 < n,
                site.1 < func.blocks@[site.0 as int].statements@.len(),
                func.blocks@[site.0 as int].statements@[site.1 as int] is Nop,
                forall|k2: int| 0 <= k2 < nread ==> (#[trigger] read@[k2]).0 < nlocals,
                forall|k2: int| 0 <= k2 < worklist@.len()
                    ==> (#[trigger] worklist@[k2]).0 < nlocals,
                uses_cover(*func, uses@, nlocals as int),
            decreases nread - q,
        {
            let l2 = read[q];
            let ghost pre_uses = uses@;
            let row = uses.get_mut(l2);
            remove_site(row, site);
            worklist.push(l2);
            proof {
                // Every surviving read stays tracked: its site differs from
                // the erased one, which reads nothing any more.
                assert forall|l3: int, b2: int, i2: int| 0 <= l3 < nlocals && 0 <= b2 < n
                    && 0 <= i2 < func.blocks@[b2].statements@.len()
                    && #[trigger] stmt_reads(*func, b2, i2, l3)
                    implies site_tracked(uses@[l3]@, b2, i2) by {
                    assert(site_tracked(pre_uses[l3]@, b2, i2));
                    if l3 == l2.0 as int {
                        let k2 = choose|k2: int| 0 <= k2 < pre_uses[l3]@.len()
                            && (#[trigger] pre_uses[l3]@[k2]).0 as int == b2
                            && pre_uses[l3]@[k2].1 as int == i2;
                        let s2 = pre_uses[l3]@[k2];
                        if s2 == site {
                            assert(b2 == site.0 as int && i2 == site.1 as int);
                            assert(!(func.blocks@[b2].statements@[i2] is Assign));
                            assert(false);
                        }
                        assert(site_in(pre_uses[l3]@, s2));
                        assert(site_in(uses@[l3]@, s2));
                        let k3 = choose|k3: int| 0 <= k3 < uses@[l3]@.len()
                            && (#[trigger] uses@[l3]@[k3]) == s2;
                        assert(uses@[l3]@[k3].0 as int == b2);
                    } else {
                        assert(uses@[l3] == pre_uses[l3]);
                    }
                }
                assert forall|l3: int, b2: int| 0 <= l3 < nlocals && 0 <= b2 < n
                    && #[trigger] term_gen(func.blocks@[b2].terminator, l3)
                    implies site_tracked(uses@[l3]@, b2,
                        func.blocks@[b2].statements@.len() as int) by {
                    assert(site_tracked(pre_uses[l3]@, b2,
                        func.blocks@[b2].statements@.len() as int));
                    if l3 == l2.0 as int {
                        let k2 = choose|k2: int| 0 <= k2 < pre_uses[l3]@.len()
                            && (#[trigger] pre_uses[l3]@[k2]).0 as int == b2
                            && pre_uses[l3]@[k2].1 as int
                                == func.blocks@[b2].statements@.len() as int;
                        let s2 = pre_uses[l3]@[k2];
                        if s2 == site {
                            assert(b2 == site.0 as int);
                            assert((site.1 as int)
                                < func.blocks@[b2].statements@.len() as int);
                            assert(false);
                        }
                        assert(site_in(pre_uses[l3]@, s2));
                        assert(site_in(uses@[l3]@, s2));
                        let k3 = choose|k3: int| 0 <= k3 < uses@[l3]@.len()
                            && (#[trigger] uses@[l3]@[k3]) == s2;
                        assert(uses@[l3]@[k3].0 as int == b2);
                    } else {
                        assert(uses@[l3] == pre_uses[l3]);
                    }
                }
            }
            q = q + 1;
        }
    }
}

} // verus!
