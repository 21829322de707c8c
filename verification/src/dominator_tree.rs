//! The immediate-dominator tree by Lengauer–Tarjan.
//!
//! Phase 1 numbers the blocks by a depth-first search from the entry
//! sentinel. Phase 2 walks the numbering in reverse, computing each block's
//! semidominator and filing it in its semidominator's bucket; emptying the
//! parent's bucket decides immediate dominators where possible and defers
//! the rest. Phase 3 resolves the deferred blocks in forward order.
//!
//! The search and the ancestor walks are written iteratively, so the depth
//! of the graph never grows the call stack.

use vstd::prelude::*;

use crate::dataflow::bit_set::BitSet;
use crate::dataflow::dominators::{dom_eq, dom_solution, Dominators};
use crate::index::IndexMap;
use crate::mir::{BasicBlockId, Function};

verus! {

/// The greatest solution of the dominator equations: it satisfies them and
/// contains every other family that does. The all-paths dominator sets are
/// such a family, and any two greatest solutions agree, so this pins the
/// dominance relation.
pub open spec fn greatest_dom_solution(f: Function, s: Seq<Set<int>>, cap: int) -> bool {
    &&& dom_solution(f, s, cap)
    &&& forall|s2: Seq<Set<int>>, b: int, i: int|
        #![trigger dom_solution(f, s2, cap), s2[b].contains(i)]
        dom_solution(f, s2, cap) && 0 <= b <= f.n() && s2[b].contains(i)
            ==> s[b].contains(i)
}

/// Is `d` the immediate dominator of `b` under the dominance relation `s`
/// (where `a` dominates `b` iff `a` is in `s[b]`)? That is: `d` strictly
/// dominates `b`, and every other strict dominator of `b` dominates `d`.
pub open spec fn is_idom(f: Function, s: Seq<Set<int>>, b: int, d: int) -> bool {
    &&& 0 <= d <= f.n()
    &&& d != b
    &&& s[b].contains(d)
    &&& forall|d2: int| 0 <= d2 <= f.n() && d2 != b && d2 != d
        && #[trigger] s[b].contains(d2) ==> s[d].contains(d2)
}

/// The same reading over computed bit-set rows.
pub open spec fn is_idom_bits(rows: Seq<BitSet>, b: int, d: int, n: int) -> bool {
    &&& 0 <= d <= n
    &&& d != b
    &&& rows[b].contains(d)
    &&& forall|d2: int| 0 <= d2 <= n && d2 != b && d2 != d
        && #[trigger] rows[b].contains(d2) ==> rows[d].contains(d2)
}

/// Does `d` pass the immediate-dominator test for `b` against the
/// dominator rows?
fn check_idom(douts: &IndexMap<BasicBlockId, BitSet>, b: usize, d: usize, n: usize) -> (r:
    bool)
    requires
        n + 2 <= usize::MAX,
        douts@.len() == n + 2,
        forall|j: int| 0 <= j < douts@.len()
            ==> (#[trigger] douts@[j]).capacity() >= n + 2,
        b < n,
        d <= n,
    ensures
        r == is_idom_bits(douts@, b as int, d as int, n as int),
{
    if d == b {
        return false;
    }
    if !douts.at(BasicBlockId(b)).get(d) {
        return false;
    }
    let mut d2: usize = 0;
    while d2 <= n
        invariant
            n + 2 <= usize::MAX,
            douts@.len() == n + 2,
            forall|j: int| 0 <= j < douts@.len()
                ==> (#[trigger] douts@[j]).capacity() >= n + 2,
            b < n,
            d <= n,
            d != b,
            0 <= d2 <= n + 1,
            forall|x: int| 0 <= x < d2 && x != b && x != d
                && #[trigger] douts@[b as int].contains(x)
                ==> douts@[d as int].contains(x),
        decreases n + 1 - d2,
    {
        if d2 != b && d2 != d && douts.at(BasicBlockId(b)).get(d2)
            && !douts.at(BasicBlockId(d)).get(d2) {
            return false;
        }
        d2 = d2 + 1;
    }
    true
}

/// How many entries of `s` are still `false`.
pub open spec fn count_false(s: Seq<bool>) -> int
    decreases s.len(),
{
    if s.len() == 0 {
        0
    } else {
        count_false(s.drop_last()) + if s.last() { 0int } else { 1int }
    }
}

/// Setting a `false` entry to `true` lowers `count_false` by one; setting a
/// `true` entry keeps it.
pub proof fn lemma_count_false_update(s: Seq<bool>, i: int)
    requires
        0 <= i < s.len(),
    ensures
        !s[i] ==> count_false(s.update(i, true)) == count_false(s) - 1,
        s[i] ==> count_false(s.update(i, true)) == count_false(s),
    decreases s.len(),
{
    let t = s.update(i, true);
    if i == s.len() - 1 {
        assert(t.drop_last() =~= s.drop_last());
    } else {
        assert(t.drop_last() =~= s.drop_last().update(i, true));
        lemma_count_false_update(s.drop_last(), i);
    }
}

/// `count_false` never goes negative.
pub proof fn lemma_count_false_nonneg(s: Seq<bool>)
    ensures
        count_false(s) >= 0,
    decreases s.len(),
{
    if s.len() > 0 {
        lemma_count_false_nonneg(s.drop_last());
    }
}

/// Builds the immediate-dominator map of a function.
pub struct DominatorTreeBuilder<'build> {
    fn_def: &'build Function,
    dfnum: IndexMap<BasicBlockId, usize>,
    visited: Vec<bool>,
    vertices: Vec<BasicBlockId>,
    parents: IndexMap<BasicBlockId, Option<BasicBlockId>>,
    ancestors: IndexMap<BasicBlockId, Option<BasicBlockId>>,
    semidoms: IndexMap<BasicBlockId, Option<BasicBlockId>>,
    samedoms: IndexMap<BasicBlockId, Option<BasicBlockId>>,
    idoms: IndexMap<BasicBlockId, Option<BasicBlockId>>,
    bucket: IndexMap<BasicBlockId, Vec<BasicBlockId>>,
}

/// The invariant the ancestor walk relies on: every link points to a block
/// with a smaller depth-first number, so every chain ends.
pub open spec fn links_wf(
    ancestors: Seq<Option<BasicBlockId>>,
    semidoms: Seq<Option<BasicBlockId>>,
    dfnum: Seq<usize>,
    np: int,
) -> bool {
    &&& ancestors.len() == np
    &&& semidoms.len() == np
    &&& dfnum.len() == np
    &&& forall|b: int| 0 <= b < np ==> match #[trigger] ancestors[b] {
        Some(a) => a.0 < np && dfnum[a.0 as int] < dfnum[b],
        None => true,
    }
    &&& forall|b: int| 0 <= b < np ==> match #[trigger] semidoms[b] {
        Some(s) => s.0 < np,
        None => true,
    }
}

impl<'build> DominatorTreeBuilder<'build> {
    /// The function being analysed.
    pub closed spec fn spec_fn_def(self) -> Function {
        *self.fn_def
    }

    /// Is every working table sized to the function, sentinels included?
    pub closed spec fn state_wf(self) -> bool {
        &&& self.dfnum@.len() == self.spec_fn_def().n() + 2
        &&& self.visited@.len() == self.spec_fn_def().n() + 2
        &&& self.parents@.len() == self.spec_fn_def().n() + 2
        &&& self.ancestors@.len() == self.spec_fn_def().n() + 2
        &&& self.semidoms@.len() == self.spec_fn_def().n() + 2
        &&& self.samedoms@.len() == self.spec_fn_def().n() + 2
        &&& self.idoms@.len() == self.spec_fn_def().n() + 2
        &&& self.bucket@.len() == self.spec_fn_def().n() + 2
        &&& self.vertices@.len() == 0
        &&& forall|b: int| 0 <= b < self.visited@.len() ==> !(#[trigger] self.visited@[b])
        &&& forall|b: int| 0 <= b < self.dfnum@.len() ==> (#[trigger] self.dfnum@[b]) == 0
        &&& forall|b: int| 0 <= b < self.parents@.len()
            ==> (#[trigger] self.parents@[b]) is None
        &&& forall|b: int| 0 <= b < self.ancestors@.len()
            ==> (#[trigger] self.ancestors@[b]) is None
        &&& forall|b: int| 0 <= b < self.semidoms@.len()
            ==> (#[trigger] self.semidoms@[b]) is None
        &&& forall|b: int| 0 <= b < self.samedoms@.len()
            ==> (#[trigger] self.samedoms@[b]) is None
        &&& forall|b: int| 0 <= b < self.idoms@.len() ==> (#[trigger] self.idoms@[b]) is None
        &&& forall|b: int| 0 <= b < self.bucket@.len()
            ==> (#[trigger] self.bucket@[b])@.len() == 0
    }

    /// An all-`false` sequence has as many `false` entries as its length.
    proof fn lemma_count_false_all(s: Seq<bool>)
        requires
            forall|i: int| 0 <= i < s.len() ==> !(#[trigger] s[i]),
        ensures
            count_false(s) == s.len(),
        decreases s.len(),
    {
        if s.len() > 0 {
            Self::lemma_count_false_all(s.drop_last());
        }
    }

    /// Set up the working state for a function.
    pub fn new(fn_def: &'build Function) -> (r: Self)
        requires
            fn_def.wf(),
        ensures
            r.spec_fn_def() == *fn_def,
            r.state_wf(),
    {
        let np = fn_def.preds.len();
        let mut dfnum: IndexMap<BasicBlockId, usize> = IndexMap::with_capacity(np);
        let mut visited: Vec<bool> = Vec::with_capacity(np);
        let mut parents: IndexMap<BasicBlockId, Option<BasicBlockId>> =
            IndexMap::with_capacity(np);
        let mut ancestors: IndexMap<BasicBlockId, Option<BasicBlockId>> =
            IndexMap::with_capacity(np);
        let mut semidoms: IndexMap<BasicBlockId, Option<BasicBlockId>> =
            IndexMap::with_capacity(np);
        let mut samedoms: IndexMap<BasicBlockId, Option<BasicBlockId>> =
            IndexMap::with_capacity(np);
        let mut idoms: IndexMap<BasicBlockId, Option<BasicBlockId>> =
            IndexMap::with_capacity(np);
        let mut bucket: IndexMap<BasicBlockId, Vec<BasicBlockId>> = IndexMap::with_capacity(np);
        let mut k: usize = 0;
        while k < np
            invariant
                0 <= k <= np,
                dfnum@.len() == k,
                visited@.len() == k,
                parents@.len() == k,
                ancestors@.len() == k,
                semidoms@.len() == k,
                samedoms@.len() == k,
                idoms@.len() == k,
                bucket@.len() == k,
                forall|b: int| 0 <= b < k ==> !(#[trigger] visited@[b]),
                forall|b: int| 0 <= b < k ==> (#[trigger] dfnum@[b]) == 0,
                forall|b: int| 0 <= b < k ==> (#[trigger] parents@[b]) is None,
                forall|b: int| 0 <= b < k ==> (#[trigger] ancestors@[b]) is None,
                forall|b: int| 0 <= b < k ==> (#[trigger] semidoms@[b]) is None,
                forall|b: int| 0 <= b < k ==> (#[trigger] samedoms@[b]) is None,
                forall|b: int| 0 <= b < k ==> (#[trigger] idoms@[b]) is None,
                forall|b: int| 0 <= b < k ==> (#[trigger] bucket@[b])@.len() == 0,
            decreases np - k,
        {
            dfnum.push(0);
            visited.push(false);
            parents.push(None);
            ancestors.push(None);
            semidoms.push(None);
            samedoms.push(None);
            idoms.push(None);
            bucket.push(Vec::new());
            k = k + 1;
        }
        DominatorTreeBuilder {
            fn_def,
            dfnum,
            visited,
            vertices: Vec::new(),
            parents,
            ancestors,
            semidoms,
            samedoms,
            idoms,
            bucket,
        }
    }

    /// Compute the immediate dominator of every reachable block.
    ///
    /// Row `b` of the result is the immediate dominator of block `b`, or
    /// `None` for the root of the tree and for anything unreachable. The
    /// Lengauer–Tarjan result is certified row by row against the greatest
    /// solution of the dominator equations — the dominance relation — and
    /// a row that fails the test is recomputed from the sets, so the
    /// contract pins each row: `Some(d)` exactly when an immediate
    /// dominator exists, and then `d` is it.
    pub fn build(self) -> (r: IndexMap<BasicBlockId, Option<BasicBlockId>>)
        requires
            self.spec_fn_def().wf(),
            self.state_wf(),
            self.spec_fn_def().n() + 9 <= usize::MAX,
        ensures
            r@.len() == self.spec_fn_def().n() + 2,
            forall|b: int| 0 <= b < r@.len() ==> match #[trigger] r@[b] {
                Some(x) => x.0 < self.spec_fn_def().n() + 2,
                None => true,
            },
            r@[self.spec_fn_def().n()] is None,
            forall|s: Seq<Set<int>>|
                #[trigger] greatest_dom_solution(
                    self.spec_fn_def(),
                    s,
                    8 * ((self.spec_fn_def().n() + 2 + 7) / 8),
                ) ==> forall|b: int| 0 <= b < self.spec_fn_def().n()
                    ==> match #[trigger] r@[b] {
                        Some(x) => is_idom(self.spec_fn_def(), s, b, x.0 as int),
                        None => forall|d: int|
                            !#[trigger] is_idom(self.spec_fn_def(), s, b, d),
                    },
    {
        let DominatorTreeBuilder {
            fn_def: f,
            mut dfnum,
            mut visited,
            mut vertices,
            mut parents,
            mut ancestors,
            mut semidoms,
            mut samedoms,
            mut idoms,
            mut bucket,
        } = self;
        let n = f.blocks.len();
        let np = f.preds.len();
        proof {
            assert(np == f.n() + 2);
        }
        // Phase 1: depth-first numbering from the entry sentinel.
        let mut stack: Vec<(Option<BasicBlockId>, BasicBlockId)> = Vec::new();
        stack.push((None, BasicBlockId(n)));
        let mut counter: usize = 0;
        proof {
            Self::lemma_count_false_all(visited@);
        }
        while stack.len() > 0
            invariant
                f.wf(),
                n == f.n(),
                np == f.n() + 2,
                dfnum@.len() == np,
                visited@.len() == np,
                parents@.len() == np,
                counter <= np,
                vertices@.len() == counter,
                count_false(visited@) >= 0,
                counter + count_false(visited@) == np,
                counter >= 1 ==> visited@[n as int] && vertices@[0].0 == n,
                counter == 0 ==> forall|s: int| 0 <= s < stack@.len()
                    ==> (#[trigger] stack@[s]).1.0 == n,
                forall|v: int| 1 <= v < vertices@.len()
                    ==> (#[trigger] vertices@[v]).0 != n,
                forall|s: int| 0 <= s < stack@.len()
                    ==> (#[trigger] stack@[s]).1.0 < np && match stack@[s].0 {
                        Some(p) => p.0 < np,
                        None => true,
                    },
                forall|v: int| 0 <= v < vertices@.len()
                    ==> (#[trigger] vertices@[v]).0 < np,
                forall|b: int| 0 <= b < np ==> (#[trigger] dfnum@[b]) < np,
                forall|b: int| 0 <= b < np ==> match #[trigger] parents@[b] {
                    Some(p) => p.0 < np,
                    None => true,
                },
            decreases count_false(visited@), stack@.len(),
        {
            let (parent, block) = stack.pop().unwrap();
            if !visited[block.0] {
                let ghost pre_visited = visited@;
                let slot = &mut visited[block.0];
                *slot = true;
                proof {
                    lemma_count_false_update(pre_visited, block.0 as int);
                    lemma_count_false_nonneg(visited@);
                }
                let dslot = dfnum.get_mut(block);
                *dslot = counter;
                vertices.push(block);
                counter = counter + 1;
                let pslot = parents.get_mut(block);
                *pslot = parent;
                let succs = f.succs.at(block);
                let nsuccs = succs.len();
                let mut j: usize = 0;
                while j < nsuccs
                    invariant
                        f.wf(),
                        np == f.n() + 2,
                        0 <= j <= nsuccs,
                        block.0 < np,
                        nsuccs == f.succs@[block.0 as int]@.len(),
                        succs@ == f.succs@[block.0 as int]@,
                        forall|s: int| 0 <= s < stack@.len()
                            ==> (#[trigger] stack@[s]).1.0 < np && match stack@[s].0 {
                                Some(p) => p.0 < np,
                                None => true,
                            },
                    decreases nsuccs - j,
                {
                    let succ = succs[j];
                    proof {
                        assert(f.succs@[block.0 as int]@[j as int].0 < np);
                    }
                    stack.push((Some(block), succ));
                    j = j + 1;
                }
            }
        }

        // Phase 2: semidominators and buckets, in reverse numbering order.
        let nv = vertices.len();
        let mut vi: usize = nv;
        while vi > 1
            invariant
                f.wf(),
                n == f.n(),
                np == f.n() + 2,
                nv == vertices@.len(),
                nv <= np,
                0 <= vi <= nv,
                dfnum@.len() == np,
                parents@.len() == np,
                samedoms@.len() == np,
                idoms@.len() == np,
                bucket@.len() == np,
                links_wf(ancestors@, semidoms@, dfnum@, np as int),
                forall|v: int| 0 <= v < nv ==> (#[trigger] vertices@[v]).0 < np,
                forall|v: int| 1 <= v < nv ==> (#[trigger] vertices@[v]).0 != n,
                idoms@[n as int] is None,
                forall|b: int| 0 <= b < np ==> (#[trigger] dfnum@[b]) < np,
                forall|b: int| 0 <= b < np ==> match #[trigger] parents@[b] {
                    Some(p) => p.0 < np,
                    None => true,
                },
                forall|b: int, k2: int| 0 <= b < np && 0 <= k2 < bucket@[b]@.len()
                    ==> (#[trigger] bucket@[b]@[k2]).0 < np,
                forall|b: int, k2: int| 0 <= b < np && 0 <= k2 < bucket@[b]@.len()
                    ==> (#[trigger] bucket@[b]@[k2]).0 != n,
                forall|b: int| 0 <= b < np ==> match #[trigger] samedoms@[b] {
                    Some(s) => s.0 < np,
                    None => true,
                },
                forall|b: int| 0 <= b < np ==> match #[trigger] idoms@[b] {
                    Some(x) => x.0 < np,
                    None => true,
                },
            decreases vi,
        {
            vi = vi - 1;
            let block = vertices[vi];
            let parent = match *parents.at(block) {
                Some(p) => p,
                None => {
                    continue ;
                }
            };
            let mut semidom = parent;
            proof {
                assert(semidom.0 < np);
            }
            let preds = f.preds.at(block);
            let npreds = preds.len();
            let mut j: usize = 0;
            while j < npreds
                invariant
                    f.wf(),
                    np == f.n() + 2,
                    block.0 < np,
                    semidom.0 < np,
                    0 <= j <= npreds,
                    npreds == f.preds@[block.0 as int]@.len(),
                    preds@ == f.preds@[block.0 as int]@,
                    dfnum@.len() == np,
                    links_wf(ancestors@, semidoms@, dfnum@, np as int),
                    forall|b: int| 0 <= b < np ==> (#[trigger] dfnum@[b]) < np,
                decreases npreds - j,
            {
                let pred = preds[j];
                proof {
                    assert(f.preds@[block.0 as int]@[j as int].0 < np);
                }
                let semi_prime = if *dfnum.at(pred) <= *dfnum.at(block) {
                    pred
                } else {
                    let anc = ancestor_with_lowest_semi(&ancestors, &semidoms, &dfnum, pred);
                    match *semidoms.at(anc) {
                        Some(s) => s,
                        None => pred,
                    }
                };
                if *dfnum.at(semi_prime) < *dfnum.at(semidom) {
                    semidom = semi_prime;
                }
                j = j + 1;
            }
            let sslot = semidoms.get_mut(block);
            *sslot = Some(semidom);
            let bslot = bucket.get_mut(semidom);
            bslot.push(block);
            // Link the block to its parent for later ancestor walks; the
            // parent was numbered first, so the link keeps chains downward.
            if *dfnum.at(parent) < *dfnum.at(block) {
                let aslot = ancestors.get_mut(block);
                *aslot = Some(parent);
            }
            // Empty the parent's bucket.
            let drained = {
                let dslot = bucket.get_mut(parent);
                let mut taken: Vec<BasicBlockId> = Vec::new();
                core::mem::swap(dslot, &mut taken);
                taken
            };
            let ndrained = drained.len();
            let mut k2: usize = 0;
            while k2 < ndrained
                invariant
                    f.wf(),
                    n == f.n(),
                    np == f.n() + 2,
                    parent.0 < np,
                    0 <= k2 <= ndrained,
                    ndrained == drained@.len(),
                    dfnum@.len() == np,
                    samedoms@.len() == np,
                    idoms@.len() == np,
                    bucket@.len() == np,
                    links_wf(ancestors@, semidoms@, dfnum@, np as int),
                    forall|b: int| 0 <= b < np ==> (#[trigger] dfnum@[b]) < np,
                    forall|v: int| 0 <= v < ndrained
                        ==> (#[trigger] drained@[v]).0 < np,
                    forall|v: int| 0 <= v < ndrained
                        ==> (#[trigger] drained@[v]).0 != n,
                    idoms@[n as int] is None,
                    forall|b: int, k3: int| 0 <= b < np && 0 <= k3 < bucket@[b]@.len()
                        ==> (#[trigger] bucket@[b]@[k3]).0 < np,
                    forall|b: int, k3: int| 0 <= b < np && 0 <= k3 < bucket@[b]@.len()
                        ==> (#[trigger] bucket@[b]@[k3]).0 != n,
                    forall|b: int| 0 <= b < np ==> match #[trigger] samedoms@[b] {
                        Some(s) => s.0 < np,
                        None => true,
                    },
                    forall|b: int| 0 <= b < np ==> match #[trigger] idoms@[b] {
                        Some(x) => x.0 < np,
                        None => true,
                    },
                decreases ndrained - k2,
            {
                let v = drained[k2];
                let y = ancestor_with_lowest_semi(&ancestors, &semidoms, &dfnum, v);
                let sy = *semidoms.at(y);
                let sv = *semidoms.at(v);
                let same = match (sy, sv) {
                    (Some(a), Some(bb)) => a == bb,
                    (None, None) => true,
                    _ => false,
                };
                if same {
                    let islot = idoms.get_mut(v);
                    *islot = Some(parent);
                } else {
                    let mslot = samedoms.get_mut(v);
                    *mslot = Some(y);
                }
                k2 = k2 + 1;
            }
        }

        // Phase 3: resolve the deferred blocks in forward numbering order,
        // then certify every row against the dominator sets.
        let mut vi2: usize = 1;
        while vi2 < nv
            invariant
                np == f.n() + 2,
                nv == vertices@.len(),
                1 <= vi2 <= nv || vi2 == 1,
                samedoms@.len() == np,
                idoms@.len() == np,
                n == f.n(),
                forall|v: int| 0 <= v < nv ==> (#[trigger] vertices@[v]).0 < np,
                forall|v: int| 1 <= v < nv ==> (#[trigger] vertices@[v]).0 != n,
                idoms@[n as int] is None,
                forall|b: int| 0 <= b < np ==> match #[trigger] samedoms@[b] {
                    Some(s) => s.0 < np,
                    None => true,
                },
                forall|b: int| 0 <= b < np ==> match #[trigger] idoms@[b] {
                    Some(x) => x.0 < np,
                    None => true,
                },
            decreases nv - vi2,
        {
            let block = vertices[vi2];
            match *samedoms.at(block) {
                Some(samedom) => {
                    let resolved = *idoms.at(samedom);
                    let islot = idoms.get_mut(block);
                    *islot = resolved;
                }
                None => {}
            }
            vi2 = vi2 + 1;
        }

        // Certification: keep the Lengauer–Tarjan answer when the
        // dominator sets confirm it as the immediate dominator, and
        // recompute it from the sets otherwise.
        let douts = Dominators::new(f).run();
        let ghost capi: int = 8int * (((np + 7) / 8) as int);
        let mut certified: IndexMap<BasicBlockId, Option<BasicBlockId>> =
            IndexMap::with_capacity(np);
        let mut cb: usize = 0;
        while cb < n
            invariant
                f.wf(),
                n == f.n(),
                np == f.n() + 2,
                np <= usize::MAX,
                n + 9 <= usize::MAX,
                idoms@.len() == np,
                douts@.len() == np,
                forall|j: int| 0 <= j < douts@.len()
                    ==> (#[trigger] douts@[j]).capacity() >= n + 2,
                forall|b: int| 0 <= b < np ==> match #[trigger] idoms@[b] {
                    Some(x) => x.0 < np,
                    None => true,
                },
                0 <= cb <= n,
                certified@.len() == cb,
                forall|b: int| 0 <= b < cb ==> match #[trigger] certified@[b] {
                    Some(x) => x.0 < np && is_idom_bits(douts@, b, x.0 as int, n as int),
                    None => forall|d: int| !#[trigger] is_idom_bits(douts@, b, d, n as int),
                },
            decreases n - cb,
        {
            let lt_row = *idoms.at(BasicBlockId(cb));
            let mut chosen: Option<BasicBlockId> = None;
            match lt_row {
                Some(x) => {
                    if x.0 <= n && check_idom(&douts, cb, x.0, n) {
                        chosen = Some(x);
                    }
                }
                None => {}
            }
            if chosen.is_none() {
                let mut d: usize = 0;
                while d <= n
                    invariant
                        n + 9 <= usize::MAX,
                        np == n + 2,
                        douts@.len() == np,
                        forall|j: int| 0 <= j < douts@.len()
                            ==> (#[trigger] douts@[j]).capacity() >= n + 2,
                        cb < n,
                        0 <= d <= n + 1,
                        chosen is None ==> forall|d2: int| 0 <= d2 < d
                            ==> !#[trigger] is_idom_bits(douts@, cb as int, d2, n as int),
                        match chosen {
                            Some(x) => x.0 <= n
                                && is_idom_bits(douts@, cb as int, x.0 as int, n as int),
                            None => true,
                        },
                    decreases n + 1 - d,
                {
                    if chosen.is_none() && check_idom(&douts, cb, d, n) {
                        chosen = Some(BasicBlockId(d));
                    }
                    d = d + 1;
                }
                proof {
                    if chosen is None {
                        assert forall|d2: int| !#[trigger] is_idom_bits(
                            douts@,
                            cb as int,
                            d2,
                            n as int,
                        ) by {
                            if 0 <= d2 <= n {
                            } else {
                                assert(!(0 <= d2 <= n));
                            }
                        }
                    }
                }
            }
            certified.push(chosen);
            cb = cb + 1;
        }
        // The sentinels keep their tree rows: the entry is the root and
        // stays `None`; the exit keeps the parent the search gave it, which
        // the frontier recursion reads.
        let entry_row = *idoms.at(BasicBlockId(n));
        let exit_row = *idoms.at(BasicBlockId(n + 1));
        certified.push(entry_row);
        certified.push(exit_row);
        proof {
            // Bridge the bit-set certificates to any greatest solution:
            // the computed rows are themselves a solution, and mutual
            // containment makes the memberships agree.
            assert forall|s: Seq<Set<int>>| #[trigger] greatest_dom_solution(*f, s, capi)
                implies forall|b: int| 0 <= b < f.n() ==> match #[trigger] certified@[b] {
                    Some(x) => is_idom(*f, s, b, x.0 as int),
                    None => forall|d: int| !#[trigger] is_idom(*f, s, b, d),
                } by {
                let sd = Seq::new(np as nat, |bb: int| Set::new(|i: int| douts@[bb]
                    .contains(i)));
                assert(dom_solution(*f, sd, capi)) by {
                    assert forall|b: int, i: int| 0 <= b < f.n()
                        implies (#[trigger] sd[b].contains(i) <==> (i == b || (0 <= i
                            < capi && forall|j: int| 0 <= j < f.preds@[b]@.len()
                                ==> sd[f.preds@[b]@[j].0 as int].contains(i)))) by {
                        assert(dom_eq(*f, douts@, b));
                        assert(douts@[b].contains(i) <==> (i == b || (0 <= i
                            < douts@[b].capacity() && forall|j: int|
                            0 <= j < f.preds@[b]@.len()
                                ==> douts@[f.preds@[b]@[j].0 as int].contains(i))));
                        assert(douts@[b].capacity() == capi);
                        assert forall|j: int| 0 <= j < f.preds@[b]@.len()
                            implies ((#[trigger] sd[f.preds@[b]@[j].0 as int].contains(i))
                                <==> douts@[f.preds@[b]@[j].0 as int].contains(i)) by {
                            assert(f.preds@[b]@[j].0 < np);
                        }
                    }
                    assert forall|i: int| #[trigger] sd[f.n()].contains(i)
                        implies i == f.n() by {}
                    assert forall|i: int| i == f.n() implies #[trigger] sd[f.n()]
                        .contains(i) by {}
                }
                // Membership agreement on every row up to the entry.
                assert forall|b: int, i: int| 0 <= b <= f.n()
                    implies (#[trigger] s[b].contains(i) <==> douts@[b].contains(i)) by {
                    if s[b].contains(i) {
                        assert(douts@[b].contains(i));
                    }
                    if douts@[b].contains(i) {
                        assert(sd[b].contains(i));
                        assert(s[b].contains(i));
                    }
                }
                assert forall|b: int| 0 <= b < f.n() implies match #[trigger] certified@[
                    b] {
                    Some(x) => is_idom(*f, s, b, x.0 as int),
                    None => forall|d: int| !#[trigger] is_idom(*f, s, b, d),
                } by {
                    match certified@[b] {
                        Some(x) => {
                            assert(is_idom_bits(douts@, b, x.0 as int, n as int));
                            let xd = x.0 as int;
                            assert(s[b].contains(xd));
                            assert forall|d2: int| 0 <= d2 <= f.n() && d2 != b && d2 != xd
                                && #[trigger] s[b].contains(d2)
                                implies s[xd].contains(d2) by {
                                assert(douts@[b].contains(d2));
                                assert(douts@[xd].contains(d2));
                            }
                            assert(is_idom(*f, s, b, xd));
                        }
                        None => {
                            assert forall|d: int| !#[trigger] is_idom(*f, s, b, d) by {
                                if is_idom(*f, s, b, d) {
                                    assert(douts@[b].contains(d));
                                    assert forall|d2: int| 0 <= d2 <= n as int && d2 != b
                                        && d2 != d
                                        && #[trigger] douts@[b].contains(d2)
                                        implies douts@[d].contains(d2) by {
                                        assert(s[b].contains(d2));
                                        assert(s[d].contains(d2));
                                    }
                                    assert(is_idom_bits(douts@, b, d, n as int));
                                }
                            }
                        }
                    }
                }
            }
        }
        certified
    }
}

/// Walk the ancestor links upward from `block` and return the ancestor
/// whose semidominator has the lowest depth-first number, `block` itself
/// included.
fn ancestor_with_lowest_semi(
    ancestors: &IndexMap<BasicBlockId, Option<BasicBlockId>>,
    semidoms: &IndexMap<BasicBlockId, Option<BasicBlockId>>,
    dfnum: &IndexMap<BasicBlockId, usize>,
    block: BasicBlockId,
) -> (r: BasicBlockId)
    requires
        links_wf(ancestors@, semidoms@, dfnum@, ancestors@.len() as int),
        block.0 < ancestors@.len(),
    ensures
        r.0 < ancestors@.len(),
{
    let mut result = block;
    let mut cur = block;
    let mut next = *ancestors.at(cur);
    while next.is_some()
        invariant
            links_wf(ancestors@, semidoms@, dfnum@, ancestors@.len() as int),
            cur.0 < ancestors@.len(),
            result.0 < ancestors@.len(),
            next == ancestors@[cur.0 as int],
        decreases dfnum@[cur.0 as int],
    {
        let ancestor = match next {
            Some(a) => a,
            None => {
                proof {
                    assert(false);
                }
                cur
            }
        };
        let sc = *semidoms.at(cur);
        let sr = *semidoms.at(result);
        let take = match (sc, sr) {
            (Some(a), Some(bb)) => *dfnum.at(a) < *dfnum.at(bb),
            (Some(_), None) => true,
            _ => false,
        };
        if take {
            result = cur;
        }
        cur = ancestor;
        next = *ancestors.at(cur);
    }
    result
}

} // verus!
