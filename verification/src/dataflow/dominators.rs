//! Dominators as a forward must-analysis.
//!
//! Domain: subsets of blocks. The transfer for block `b` intersects the
//! out-sets of its predecessors and then adds `b` itself. Every non-entry
//! block starts full; the entry sentinel's out-set is `{entry}`. The sets
//! only ever shrink, which is what the termination measure counts.

use vstd::prelude::*;

use crate::dataflow::bit_set::{
    count_below, lemma_count_below_lt, lemma_proper_subset_witness, BitSet,
};
use crate::dataflow::{lemma_rows_count_nonneg, lemma_rows_count_update, rows_count};
use crate::index::IndexMap;
use crate::mir::{BasicBlockId, Function};

verus! {

/// Does row `b` of `outs` satisfy its dominator equation? A block is in
/// `out[b]` exactly when it is `b` itself or in every predecessor's out-set.
pub open spec fn dom_eq(f: Function, outs: Seq<BitSet>, b: int) -> bool {
    forall|i: int| #[trigger] outs[b].contains(i) <==> (i == b || (0 <= i
        < outs[b].capacity() && forall|j: int| 0 <= j < f.preds@[b]@.len()
            ==> outs[f.preds@[b]@[j].0 as int].contains(i)))
}

/// Any family of sets that satisfies the dominator equations for every
/// real block, pins the entry row to `{entry}`, and whose members stay
/// below `cap`.
pub open spec fn dom_solution(f: Function, s: Seq<Set<int>>, cap: int) -> bool {
    &&& s.len() == f.n() + 2
    &&& forall|b: int, i: int| 0 <= b < f.n() ==> (#[trigger] s[b].contains(i) <==> (i == b
        || (0 <= i < cap && forall|j: int| 0 <= j < f.preds@[b]@.len()
            ==> s[f.preds@[b]@[j].0 as int].contains(i))))
    &&& forall|i: int| #[trigger] s[f.n()].contains(i) <==> i == f.n()
}

/// One direction of the equation: row `b` still holds everything its
/// transfer would produce. Full rows satisfy it, and it keeps every
/// recomputation from growing a row, so the sets only shrink.
pub open spec fn dom_pre(f: Function, outs: Seq<BitSet>, b: int) -> bool {
    forall|i: int| (i == b || (0 <= i < outs[b].capacity() && forall|j: int|
        0 <= j < f.preds@[b]@.len()
            ==> outs[f.preds@[b]@[j].0 as int].contains(i)))
        ==> #[trigger] outs[b].contains(i)
}

/// The dominator analysis over one function.
pub struct Dominators<'flow> {
    fn_def: &'flow Function,
}

impl<'flow> Dominators<'flow> {
    /// The function being analysed.
    pub closed spec fn spec_fn_def(self) -> Function {
        *self.fn_def
    }

    /// Wrap a function for analysis.
    pub fn new(fn_def: &'flow Function) -> (r: Self)
        ensures
            r.spec_fn_def() == *fn_def,
    {
        Dominators { fn_def }
    }

    /// Iterate to the fixed point of the dominator equations.
    ///
    /// The result holds one set per block, the two sentinels included; row
    /// `b` of it satisfies `dom_eq` for every real block `b`, and the entry
    /// row is `{entry}`. The loop ends because a changed pass strictly
    /// shrinks the total member count.
    pub fn run(&self) -> (r: IndexMap<BasicBlockId, BitSet>)
        requires
            self.spec_fn_def().wf(),
            self.spec_fn_def().n() + 9 <= usize::MAX,
        ensures
            r@.len() == self.spec_fn_def().n() + 2,
            forall|b: int| 0 <= b < r@.len()
                ==> (#[trigger] r@[b]).capacity()
                    == 8 * ((self.spec_fn_def().n() + 2 + 7) / 8),
            forall|b: int| 0 <= b < r@.len()
                ==> (#[trigger] r@[b]).capacity() >= self.spec_fn_def().n() + 2,
            forall|b: int| 0 <= b < self.spec_fn_def().n()
                ==> dom_eq(self.spec_fn_def(), r@, b),
            forall|i: int| #[trigger] r@[self.spec_fn_def().n()].contains(i)
                <==> i == self.spec_fn_def().n(),
            // The result is the greatest solution: every family satisfying
            // the equations sits inside it, so the descending iteration
            // pins the sets uniquely. The all-paths dominator sets are one
            // such family, so they are contained in — and, being maximal
            // among path-closed families, equal to — these rows.
            forall|s: Seq<Set<int>>|
                #[trigger] dom_solution(
                    self.spec_fn_def(),
                    s,
                    8 * ((self.spec_fn_def().n() + 2 + 7) / 8),
                ) ==> forall|b: int, i: int| 0 <= b <= self.spec_fn_def().n()
                    && #[trigger] s[b].contains(i) ==> r@[b].contains(i),
    {
        let f = self.fn_def;
        let n = f.blocks.len();
        let np = f.preds.len();
        proof {
            assert(np == f.n() + 2);
        }

        let mut values_out: IndexMap<BasicBlockId, BitSet> = IndexMap::with_capacity(np);
        let mut k: usize = 0;
        while k < np
            invariant
                np == f.n() + 2,
                n == f.n(),
                0 <= k <= np,
                np + 7 <= usize::MAX,
                values_out@.len() == k,
                forall|j: int| 0 <= j < k
                    ==> (#[trigger] values_out@[j]).capacity() == 8 * ((np + 7) / 8),
                forall|j: int| 0 <= j < k && j != n
                    ==> (forall|i: int| (#[trigger] values_out@[j]).contains(i)
                        <==> 0 <= i < values_out@[j].capacity()),
                forall|j: int| 0 <= j < k && j == n
                    ==> (forall|i: int| (#[trigger] values_out@[j]).contains(i) <==> i == n),
            decreases np - k,
        {
            if k == n {
                let mut entry_out = BitSet::new(np);
                entry_out.insert(n);
                values_out.push(entry_out);
            } else {
                values_out.push(BitSet::full(np));
            }
            k = k + 1;
        }
        let ghost capi: int = 8int * (((np + 7) / 8) as int);
        proof {
            assert(capi == 8 * ((np + 7) / 8));
            assert(capi == 8 * ((n + 2 + 7) / 8));
            // Any solution's members are in range, so the full starting
            // rows contain every solution.
            assert forall|s: Seq<Set<int>>| #[trigger] dom_solution(*f, s, capi)
                implies forall|b2: int, i: int| 0 <= b2 <= n as int
                    && #[trigger] s[b2].contains(i)
                    ==> values_out@[b2].contains(i) by {
                assert forall|b2: int, i: int| 0 <= b2 <= n as int
                    && #[trigger] s[b2].contains(i)
                    implies values_out@[b2].contains(i) by {
                    if b2 < n as int {
                        assert(s[b2].contains(i) <==> (i == b2 || (0 <= i < capi
                            && forall|j: int| 0 <= j < f.preds@[b2]@.len()
                                ==> s[f.preds@[b2]@[j].0 as int].contains(i))));
                        assert(0 <= i < values_out@[b2].capacity());
                    } else {
                        assert(i == n);
                    }
                }
            }
            // Full rows hold everything, so they hold their transfers.
            assert forall|b2: int| 0 <= b2 < n implies dom_pre(*f, values_out@, b2) by {
                assert forall|i: int| (i == b2 || (0 <= i < values_out@[b2].capacity()
                    && forall|j: int| 0 <= j < f.preds@[b2]@.len()
                        ==> values_out@[f.preds@[b2]@[j].0 as int].contains(i)))
                    implies #[trigger] values_out@[b2].contains(i) by {
                    if i == b2 {
                        assert(0 <= i < values_out@[b2].capacity());
                    }
                }
            }
        }

        loop
            invariant
                np == f.n() + 2,
                n == f.n(),
                np + 7 <= usize::MAX,
                capi == 8 * ((np + 7) / 8),
                f.wf(),
                f == self.spec_fn_def(),
                values_out@.len() == np,
                forall|j: int| 0 <= j < np
                    ==> (#[trigger] values_out@[j]).capacity() == 8 * ((np + 7) / 8),
                forall|i: int| (#[trigger] values_out@[n as int]).contains(i) <==> i == n,
                forall|b2: int| 0 <= b2 < n ==> dom_pre(*f, values_out@, b2),
                forall|s: Seq<Set<int>>| #[trigger] dom_solution(*f, s, capi)
                    ==> forall|b2: int, i: int| 0 <= b2 <= n as int
                        && #[trigger] s[b2].contains(i)
                        ==> values_out@[b2].contains(i),
            decreases rows_count(values_out@, np as int),
        {
            let ghost start = values_out@;
            let mut changed = false;
            let mut b: usize = 0;
            while b < n
                invariant
                    np == f.n() + 2,
                    n == f.n(),
                    np + 7 <= usize::MAX,
                    capi == 8 * ((np + 7) / 8),
                    f.wf(),
                    0 <= b <= n,
                    values_out@.len() == np,
                    forall|j: int| 0 <= j < np
                        ==> (#[trigger] values_out@[j]).capacity() == 8 * ((np + 7) / 8),
                    forall|i: int| (#[trigger] values_out@[n as int]).contains(i) <==> i == n,
                    forall|b2: int| 0 <= b2 < n ==> dom_pre(*f, values_out@, b2),
                    forall|s: Seq<Set<int>>| #[trigger] dom_solution(*f, s, capi)
                        ==> forall|b2: int, i: int| 0 <= b2 <= n as int
                            && #[trigger] s[b2].contains(i)
                            ==> values_out@[b2].contains(i),
                    rows_count(values_out@, np as int) <= rows_count(start, np as int),
                    changed ==> rows_count(values_out@, np as int)
                        < rows_count(start, np as int),
                    !changed ==> values_out@ == start,
                    !changed ==> forall|b2: int| 0 <= b2 < b ==> dom_eq(*f, values_out@, b2),
                decreases n - b,
            {
                let preds = f.preds.at(BasicBlockId(b));
                let mut new_out = BitSet::full(np);
                let npreds = preds.len();
                let mut j: usize = 0;
                while j < npreds
                    invariant
                        np == f.n() + 2,
                        n == f.n(),
                        np + 7 <= usize::MAX,
                        f.wf(),
                        0 <= b < n,
                        npreds == f.preds@[b as int]@.len(),
                        preds@ == f.preds@[b as int]@,
                        0 <= j <= npreds,
                        values_out@.len() == np,
                        forall|j2: int| 0 <= j2 < np
                            ==> (#[trigger] values_out@[j2]).capacity() == 8 * ((np + 7) / 8),
                        new_out.capacity() == 8 * ((np + 7) / 8),
                        forall|i: int| #[trigger] new_out.contains(i) <==> (0 <= i
                            < new_out.capacity() && forall|j2: int| 0 <= j2 < j
                                ==> values_out@[preds@[j2].0 as int].contains(i)),
                    decreases npreds - j,
                {
                    let p = preds[j];
                    proof {
                        assert(f.preds@[b as int]@[j as int].0 < np);
                    }
                    let ghost prev = new_out;
                    new_out.intersection(values_out.at(p));
                    proof {
                        assert forall|i: int| #[trigger] new_out.contains(i) implies (0 <= i
                            < new_out.capacity() && forall|j2: int| 0 <= j2 < j + 1
                                ==> values_out@[preds@[j2].0 as int].contains(i)) by {
                            assert(prev.contains(i));
                            assert(values_out@[preds@[j as int].0 as int].contains(i));
                            assert forall|j2: int| 0 <= j2 < j + 1
                                implies values_out@[preds@[j2].0 as int].contains(i) by {
                                if j2 < j {
                                    assert(prev.contains(i));
                                }
                            }
                        }
                        assert forall|i: int| (0 <= i < new_out.capacity()
                            && forall|j2: int| 0 <= j2 < j + 1
                                ==> values_out@[preds@[j2].0 as int].contains(i))
                            implies #[trigger] new_out.contains(i) by {
                            assert(values_out@[preds@[j as int].0 as int].contains(i));
                            assert forall|j2: int| 0 <= j2 < j
                                implies values_out@[preds@[j2].0 as int].contains(i) by {}
                            assert(0 <= i < prev.capacity());
                            assert(prev.contains(i));
                        }
                    }
                    j = j + 1;
                }
                new_out.insert(b);
                let same = new_out.same(values_out.at(BasicBlockId(b)));
                if !same {
                    proof {
                        // The new row only shrinks: everything it holds, the
                        // old row already held.
                        assert forall|i: int| #[trigger] new_out.contains(i)
                            implies values_out@[b as int].contains(i) by {
                            assert(dom_pre(*f, values_out@, b as int));
                        }
                    }
                    let ghost pre_rows = values_out@;
                    let ghost old_row = values_out@[b as int];
                    let slot = values_out.get_mut(BasicBlockId(b));
                    *slot = new_out;
                    changed = true;
                    proof {
                        assert forall|i: int| (#[trigger] values_out@[n as int]).contains(i)
                            <==> i == n by {}
                        // Strictly fewer members in the changed row, so
                        // strictly fewer in total.
                        let w = lemma_proper_subset_witness(new_out, old_row);
                        lemma_count_below_lt(new_out, old_row, old_row.capacity() as int, w);
                        lemma_rows_count_update(pre_rows, np as int, b as int, new_out);
                        assert(values_out@ =~= pre_rows.update(b as int, new_out));
                        assert(rows_count(values_out@, np as int)
                            < rows_count(pre_rows, np as int));
                        // Every solution still sits inside the rows: a
                        // member of a solution row is the block itself or
                        // lies in every predecessor's solution row, which
                        // the pre-update rows contain.
                        assert forall|s: Seq<Set<int>>| #[trigger] dom_solution(*f, s, capi)
                            implies forall|b2: int, i: int| 0 <= b2 <= n as int
                                && #[trigger] s[b2].contains(i)
                                ==> values_out@[b2].contains(i) by {
                            assert forall|b2: int, i: int| 0 <= b2 <= n as int
                                && #[trigger] s[b2].contains(i)
                                implies values_out@[b2].contains(i) by {
                                if b2 == b as int {
                                    assert(s[b2].contains(i) <==> (i == b2 || (0 <= i
                                        < capi && forall|j2: int|
                                        0 <= j2 < f.preds@[b2]@.len()
                                            ==> s[f.preds@[b2]@[j2].0 as int].contains(
                                            i,
                                        ))));
                                    if i != b2 {
                                        assert forall|j2: int|
                                            0 <= j2 < f.preds@[b2]@.len()
                                            implies pre_rows[(#[trigger] f.preds@[b2]@[
                                            j2]).0 as int].contains(i) by {
                                            let p = f.preds@[b2]@[j2];
                                            assert(crate::mir::id_in(f.preds@[b2]@, p));
                                            assert(f.edge(p, BasicBlockId(b)));
                                            assert(p.0 <= n);
                                            assert(s[p.0 as int].contains(i));
                                            assert(pre_rows[p.0 as int].contains(i));
                                        }
                                        assert(new_out.capacity() == capi);
                                        assert(0 <= i < new_out.capacity());
                                        assert(new_out.contains(i));
                                    } else {
                                        assert(new_out.contains(i));
                                    }
                                } else {
                                    assert(pre_rows[b2].contains(i));
                                }
                            }
                        }
                        // The one-directional equation survives the shrink.
                        assert forall|b2: int| 0 <= b2 < n
                            implies dom_pre(*f, values_out@, b2) by {
                            assert forall|i: int| (i == b2 || (0 <= i
                                < values_out@[b2].capacity() && forall|j2: int|
                                0 <= j2 < f.preds@[b2]@.len()
                                    ==> values_out@[f.preds@[b2]@[j2].0 as int].contains(i)))
                                implies #[trigger] values_out@[b2].contains(i) by {
                                if i == b2 {
                                    if b2 == b as int {
                                        assert(new_out.contains(i));
                                    } else {
                                        assert(dom_pre(*f, pre_rows, b2));
                                        assert(pre_rows[b2].contains(i));
                                    }
                                } else {
                                    // Every predecessor's new row sits inside
                                    // its old row.
                                    assert forall|j2: int| 0 <= j2 < f.preds@[b2]@.len()
                                        implies pre_rows[f.preds@[b2]@[j2].0 as int]
                                            .contains(i) by {
                                        let q = f.preds@[b2]@[j2].0 as int;
                                        assert(values_out@[q].contains(i));
                                        if q == b as int {
                                            assert(new_out.contains(i));
                                            assert(old_row.contains(i));
                                        }
                                    }
                                    if b2 == b as int {
                                        assert(new_out.contains(i));
                                    } else {
                                        assert(dom_pre(*f, pre_rows, b2));
                                        assert(pre_rows[b2].contains(i));
                                    }
                                }
                            }
                        }
                    }
                } else {
                    proof {
                        assert forall|i: int| #[trigger] values_out@[b as int].contains(i)
                            <==> (i == b || (0 <= i < values_out@[b as int].capacity()
                                && forall|j2: int| 0 <= j2 < f.preds@[b as int]@.len()
                                    ==> values_out@[f.preds@[b as int]@[j2].0 as int].contains(
                                        i,
                                    ))) by {
                            assert(new_out.contains(i)
                                <==> values_out@[b as int].contains(i));
                        }
                        assert(dom_eq(*f, values_out@, b as int));
                    }
                }
                b = b + 1;
            }
            if !changed {
                proof {
                    assert forall|b2: int| 0 <= b2 < f.n() implies dom_eq(
                        *f,
                        values_out@,
                        b2,
                    ) by {}
                    assert(capi == 8 * ((f.n() + 2 + 7) / 8));
                }
                return values_out;
            }
            proof {
                lemma_rows_count_nonneg(values_out@, np as int);
            }
        }
    }
}

} // verus!
