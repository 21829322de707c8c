//! The dataflow framework: fixed-point iteration over per-block sets.
//!
//! Each analysis repeatedly recomputes the set of every block until a full
//! pass changes nothing; monotone transfer functions on finite lattices
//! guarantee the fixed point.

pub mod bit_set;
pub mod dominators;
pub mod live_variable;
pub mod reaching_defs;

use vstd::prelude::*;

use crate::dataflow::bit_set::{
    count_below, lemma_capacity_nonneg, lemma_count_below_bounds, BitSet,
};
use crate::index::IndexMap;
use crate::mir::{BasicBlockId, Function};

verus! {

/// The total member count of rows `0..j`.
pub open spec fn rows_count(rows: Seq<BitSet>, j: int) -> int
    decreases j,
{
    if j <= 0 {
        0
    } else {
        rows_count(rows, j - 1) + count_below(rows[j - 1], rows[j - 1].capacity())
    }
}

/// The total member count is never negative.
pub proof fn lemma_rows_count_nonneg(rows: Seq<BitSet>, j: int)
    ensures
        rows_count(rows, j) >= 0,
    decreases j,
{
    if j > 0 {
        lemma_rows_count_nonneg(rows, j - 1);
        lemma_capacity_nonneg(rows[j - 1]);
        lemma_count_below_bounds(rows[j - 1], rows[j - 1].capacity());
    }
}

/// With every row's capacity at most `cap`, the total stays below `j * cap`.
pub proof fn lemma_rows_count_upper(rows: Seq<BitSet>, j: int, cap: int)
    requires
        0 <= j,
        cap >= 0,
        forall|i: int| 0 <= i < j ==> (#[trigger] rows[i]).capacity() <= cap,
    ensures
        rows_count(rows, j) <= j * cap,
    decreases j,
{
    if j > 0 {
        lemma_rows_count_upper(rows, j - 1, cap);
        lemma_capacity_nonneg(rows[j - 1]);
        lemma_count_below_bounds(rows[j - 1], rows[j - 1].capacity());
        assert(rows[j - 1].capacity() <= cap);
        assert(count_below(rows[j - 1], rows[j - 1].capacity()) <= cap);
        assert((j - 1) * cap + cap == j * cap) by (nonlinear_arith);
    }
}

/// Swapping one row shifts the total by exactly that row's change.
pub proof fn lemma_rows_count_update(rows: Seq<BitSet>, j: int, t: int, new: BitSet)
    requires
        0 <= t < j <= rows.len(),
    ensures
        rows_count(rows.update(t, new), j) == rows_count(rows, j)
            - count_below(rows[t], rows[t].capacity())
            + count_below(new, new.capacity()),
    decreases j,
{
    let upd = rows.update(t, new);
    if t == j - 1 {
        assert(rows_count(upd, j - 1) == rows_count(rows, j - 1)) by {
            lemma_rows_count_agree(rows, upd, j - 1);
        }
    } else {
        lemma_rows_count_update(rows, j - 1, t, new);
        assert(upd[j - 1] == rows[j - 1]);
    }
}

/// Two row sequences equal below `j` count the same.
pub proof fn lemma_rows_count_agree(rows1: Seq<BitSet>, rows2: Seq<BitSet>, j: int)
    requires
        forall|i: int| 0 <= i < j ==> #[trigger] rows1[i] == rows2[i],
    ensures
        rows_count(rows1, j) == rows_count(rows2, j),
    decreases j,
{
    if j > 0 {
        lemma_rows_count_agree(rows1, rows2, j - 1);
    }
}

/// One definition site: either the initial value a non-parameter local has
/// on entry, or an `Assign` statement.
#[derive(Debug, Clone, Copy, PartialEq, Eq, Structural)]
pub enum Def {
    Dummy(crate::mir::Local),
    Real { block: BasicBlockId, stmt_index: usize },
}

/// The definitions selected by the set `bits` out of `defs`, in order.
pub open spec fn selected_defs(defs: Seq<Def>, bits: bit_set::BitSet, upto: int) -> Seq<Def>
    decreases upto,
{
    if upto <= 0 {
        Seq::empty()
    } else {
        let prev = selected_defs(defs, bits, upto - 1);
        if bits.contains(upto - 1) {
            prev.push(defs[upto - 1])
        } else {
            prev
        }
    }
}

/// Run reaching definitions over `fn_def` and spell each block's out-set
/// out as the list of definitions it holds, in numbering order.
///
/// The result carries the definition numbering, the raw out-sets — which
/// satisfy the reaching-definitions equations for every real block, with
/// the entry row holding exactly the dummies — and, per block, the listed
/// definitions selected by that block's out-set.
pub fn dataflow<'flow>(fn_def: &'flow Function) -> (r: (
    reaching_defs::ReachingDefs<'flow>,
    IndexMap<BasicBlockId, BitSet>,
    IndexMap<BasicBlockId, Vec<Def>>,
))
    requires
        fn_def.wf(),
        fn_def.n() + 9 <= usize::MAX,
    ensures
        r.0.wf(),
        r.0.spec_fn_def() == *fn_def,
        r.1@.len() == fn_def.n() + 2,
        forall|b: int| 0 <= b < fn_def.n() ==> r.0.rd_eq(r.1@, b),
        forall|d: int| #[trigger] r.1@[fn_def.n()].contains(d) <==> 0 <= d < r.0.ndummy(),
        r.2@.len() == fn_def.n() + 2,
        forall|b: int| 0 <= b < r.2@.len()
            ==> (#[trigger] r.2@[b])@ == selected_defs(r.0.spec_defs(), r.1@[b], r.0.ndefs()),
{
    let rd = reaching_defs::ReachingDefs::new(fn_def);
    let outs = rd.run();
    let np = outs.len();
    let ndefs = rd.definitions_len();
    let mut m: IndexMap<BasicBlockId, Vec<Def>> = IndexMap::with_capacity(np);
    let mut b: usize = 0;
    while b < np
        invariant
            np == outs@.len(),
            ndefs == rd.ndefs(),
            forall|j: int| 0 <= j < np
                ==> ndefs <= (#[trigger] outs@[j]).capacity(),
            0 <= b <= np,
            m@.len() == b,
            forall|b2: int| 0 <= b2 < b
                ==> (#[trigger] m@[b2])@ == selected_defs(rd.spec_defs(), outs@[b2], ndefs as int),
        decreases np - b,
    {
        let bits = outs.at(BasicBlockId(b));
        let mut row: Vec<Def> = Vec::new();
        let mut d: usize = 0;
        while d < ndefs
            invariant
                ndefs == rd.ndefs(),
                0 <= b < np,
                np == outs@.len(),
                bits == outs@[b as int],
                ndefs <= bits.capacity(),
                0 <= d <= ndefs,
                row@ == selected_defs(rd.spec_defs(), *bits, d as int),
            decreases ndefs - d,
        {
            if bits.get(d) {
                row.push(*rd.definition_at(d));
            }
            d = d + 1;
        }
        m.push(row);
        b = b + 1;
    }
    (rd, outs, m)
}

} // verus!
