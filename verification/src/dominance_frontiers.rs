//! Dominance frontiers by the Cytron et al. recursion.
//!
//! The immediate-dominator tree comes from Lengauer–Tarjan; the frontier of
//! each block is then assembled in post-order of that tree: a block's own
//! successors that it does not immediately dominate, plus the entries of its
//! children's frontiers that it does not dominate at all. The post-order
//! walk is written iteratively with an explicit stack.

use vstd::prelude::*;

use crate::dataflow::bit_set::BitSet;
use crate::dataflow::dominators::Dominators;
use crate::dominator_tree::{
    count_false, greatest_dom_solution, lemma_count_false_nonneg, lemma_count_false_update,
    DominatorTreeBuilder,
};
use crate::index::IndexMap;
use crate::mir::{id_in, insert_sorted, sorted_ids, BasicBlockId, Function};

verus! {

/// Is `y` on the dominance frontier of `nn`, under the dominance relation
/// `s` (where `a` dominates `b` iff `a` is in `s[b]`)? That is: `nn`
/// dominates some predecessor of `y`, and `nn` is `y` itself or does not
/// strictly dominate `y`.
pub open spec fn in_frontier(f: Function, s: Seq<Set<int>>, nn: int, y: int) -> bool {
    &&& 0 <= y <= f.n()
    &&& exists|j: int| 0 <= j < f.preds@[y]@.len()
        && s[(#[trigger] f.preds@[y]@[j]).0 as int].contains(nn)
    &&& (nn == y || !s[y].contains(nn))
}

/// The same reading over computed dominator rows.
pub open spec fn in_frontier_bits(f: Function, rows: Seq<BitSet>, nn: int, y: int) -> bool {
    &&& 0 <= y <= f.n()
    &&& exists|j: int| 0 <= j < f.preds@[y]@.len()
        && rows[(#[trigger] f.preds@[y]@[j]).0 as int].contains(nn)
    &&& (nn == y || !rows[y].contains(nn))
}

/// Does `y` pass the frontier test for `nn` against the dominator rows?
fn check_frontier(
    f: &Function,
    douts: &IndexMap<BasicBlockId, BitSet>,
    nn: usize,
    y: usize,
) -> (r: bool)
    requires
        f.wf(),
        douts@.len() == f.n() + 2,
        forall|j: int| 0 <= j < douts@.len()
            ==> (#[trigger] douts@[j]).capacity() >= f.n() + 2,
        nn <= f.n() + 1,
        y <= f.n(),
    ensures
        r == in_frontier_bits(*f, douts@, nn as int, y as int),
{
    let n = f.blocks.len();
    let preds = f.preds.at(BasicBlockId(y));
    let npreds = preds.len();
    let mut dominated = false;
    let mut j: usize = 0;
    while j < npreds
        invariant
            f.wf(),
            n == f.n(),
            douts@.len() == f.n() + 2,
            forall|j2: int| 0 <= j2 < douts@.len()
                ==> (#[trigger] douts@[j2]).capacity() >= f.n() + 2,
            nn <= f.n() + 1,
            y <= f.n(),
            npreds == f.preds@[y as int]@.len(),
            preds@ == f.preds@[y as int]@,
            0 <= j <= npreds,
            dominated <==> exists|j2: int| 0 <= j2 < j
                && douts@[(#[trigger] preds@[j2]).0 as int].contains(nn as int),
        decreases npreds - j,
    {
        let p = preds[j];
        proof {
            assert(f.preds@[y as int]@[j as int].0 < f.n() + 2);
        }
        if douts.at(p).get(nn) {
            dominated = true;
            proof {
                assert(douts@[(preds@[j as int]).0 as int].contains(nn as int));
            }
        }
        j = j + 1;
    }
    if !dominated {
        return false;
    }
    if nn == y {
        return true;
    }
    !douts.at(BasicBlockId(y)).get(nn)
}

/// Do all entries of `s` name blocks below `np`?
pub open spec fn ids_below(s: Seq<BasicBlockId>, np: int) -> bool {
    forall|i: int| 0 <= i < s.len() ==> (#[trigger] s[i]).0 < np
}

/// Compute the dominance frontier of every block of `fn_def`.
///
/// The result has one sorted, duplicate-free sequence per block, the
/// sentinels included, and every entry is a valid block id.
pub fn dominance_frontiers(fn_def: &Function) -> (r: IndexMap<BasicBlockId, Vec<BasicBlockId>>)
    requires
        fn_def.wf(),
        fn_def.n() + 9 <= usize::MAX,
    ensures
        r@.len() == fn_def.n() + 2,
        forall|b: int| 0 <= b < r@.len() ==> sorted_ids((#[trigger] r@[b])@),
        forall|b: int| 0 <= b < r@.len() ==> ids_below((#[trigger] r@[b])@, fn_def.n() + 2),
        // Membership under the dominance relation: `y` sits on the
        // frontier of `nn` exactly when `nn` dominates a predecessor of
        // `y` and is `y` itself or no strict dominator of it.
        forall|s: Seq<Set<int>>|
            #[trigger] greatest_dom_solution(*fn_def, s, 8 * ((fn_def.n() + 2 + 7) / 8))
                ==> forall|nn: int, y: int| 0 <= nn <= fn_def.n() && 0 <= y <= fn_def.n()
                    ==> (id_in(r@[nn]@, BasicBlockId(y as usize))
                        <==> in_frontier(*fn_def, s, nn, y)),
{
    let idoms = DominatorTreeBuilder::new(fn_def).build();
    let builder = DominanceFrontierBuilder::new(fn_def, &idoms);
    builder.build()
}

/// Walk the immediate-dominator links upward from `block`: does `dom`
/// strictly dominate it? The walk is cut off after one step per block,
/// which every genuine dominator chain stays within.
fn dominates(
    idoms: &IndexMap<BasicBlockId, Option<BasicBlockId>>,
    dom: BasicBlockId,
    block: BasicBlockId,
) -> (r: bool)
    requires
        block.0 < idoms@.len(),
        forall|b: int| 0 <= b < idoms@.len() ==> match #[trigger] idoms@[b] {
            Some(x) => x.0 < idoms@.len(),
            None => true,
        },
{
    let np = idoms.len();
    let mut cur = block;
    let mut steps: usize = 0;
    while steps < np
        invariant
            np == idoms@.len(),
            cur.0 < np,
            0 <= steps <= np,
            forall|b: int| 0 <= b < np ==> match #[trigger] idoms@[b] {
                Some(x) => x.0 < np,
                None => true,
            },
        decreases np - steps,
    {
        match *idoms.at(cur) {
            Some(idom) => {
                if idom == dom {
                    return true;
                }
                cur = idom;
            }
            None => {
                return false;
            }
        }
        steps = steps + 1;
    }
    false
}

/// Does the sorted row list `y`?
fn row_contains(row: &Vec<BasicBlockId>, y: usize) -> (r: bool)
    ensures
        r == id_in(row@, BasicBlockId(y)),
{
    let nv = row.len();
    let mut k: usize = 0;
    while k < nv
        invariant
            nv == row@.len(),
            0 <= k <= nv,
            forall|k2: int| 0 <= k2 < k ==> (#[trigger] row@[k2]) != BasicBlockId(y),
        decreases nv - k,
    {
        if row[k].0 == y {
            proof {
                assert(row@[k as int] == BasicBlockId(y));
            }
            return true;
        }
        k = k + 1;
    }
    proof {
        if id_in(row@, BasicBlockId(y)) {
            let k2 = choose|k2: int| 0 <= k2 < row@.len() && row@[k2] == BasicBlockId(y);
            assert(false);
        }
    }
    false
}

/// Assembles the frontier of each block from the dominator tree.
pub struct DominanceFrontierBuilder<'build> {
    fn_def: &'build Function,
    idoms: &'build IndexMap<BasicBlockId, Option<BasicBlockId>>,
    domtree: IndexMap<BasicBlockId, Vec<BasicBlockId>>,
}

impl<'build> DominanceFrontierBuilder<'build> {
    /// The function being analysed.
    pub closed spec fn spec_fn_def(self) -> Function {
        *self.fn_def
    }

    /// The immediate-dominator rows.
    pub closed spec fn spec_idoms(self) -> Seq<Option<BasicBlockId>> {
        self.idoms@
    }

    /// The children of each block in the dominator tree.
    pub closed spec fn spec_domtree(self) -> Seq<Vec<BasicBlockId>> {
        self.domtree@
    }

    /// The structural facts `new` establishes and `build` relies on.
    pub open spec fn wf(self) -> bool {
        &&& self.spec_fn_def().wf()
        &&& self.spec_idoms().len() == self.spec_fn_def().n() + 2
        &&& forall|b: int| 0 <= b < self.spec_idoms().len()
            ==> match #[trigger] self.spec_idoms()[b] {
                Some(x) => x.0 < self.spec_idoms().len(),
                None => true,
            }
        &&& self.spec_domtree().len() == self.spec_fn_def().n() + 2
        &&& forall|b: int| 0 <= b < self.spec_domtree().len()
            ==> ids_below((#[trigger] self.spec_domtree()[b])@, self.spec_fn_def().n() + 2)
    }

    /// Derive the dominator-tree children lists from the immediate
    /// dominators.
    pub fn new(
        fn_def: &'build Function,
        idoms: &'build IndexMap<BasicBlockId, Option<BasicBlockId>>,
    ) -> (r: Self)
        requires
            fn_def.wf(),
            idoms@.len() == fn_def.n() + 2,
            forall|b: int| 0 <= b < idoms@.len() ==> match #[trigger] idoms@[b] {
                Some(x) => x.0 < idoms@.len(),
                None => true,
            },
        ensures
            r.wf(),
            r.spec_fn_def() == *fn_def,
    {
        let np = idoms.len();
        let mut domtree: IndexMap<BasicBlockId, Vec<BasicBlockId>> =
            IndexMap::with_capacity(np);
        let mut k: usize = 0;
        while k < np
            invariant
                0 <= k <= np,
                domtree@.len() == k,
                forall|b: int| 0 <= b < k ==> (#[trigger] domtree@[b])@.len() == 0,
            decreases np - k,
        {
            domtree.push(Vec::new());
            k = k + 1;
        }
        let mut b: usize = 0;
        while b < np
            invariant
                np == idoms@.len(),
                np == fn_def.n() + 2,
                0 <= b <= np,
                domtree@.len() == np,
                forall|b2: int| 0 <= b2 < np ==> match #[trigger] idoms@[b2] {
                    Some(x) => x.0 < np,
                    None => true,
                },
                forall|b2: int| 0 <= b2 < np
                    ==> ids_below((#[trigger] domtree@[b2])@, np as int),
            decreases np - b,
        {
            match *idoms.at(BasicBlockId(b)) {
                Some(idom) => {
                    let row = domtree.get_mut(idom);
                    row.push(BasicBlockId(b));
                }
                None => {}
            }
            b = b + 1;
        }
        DominanceFrontierBuilder { fn_def, idoms, domtree }
    }

    /// Compute the frontier of every block, in post-order of the dominator
    /// tree starting at the entry sentinel.
    pub fn build(self) -> (r: IndexMap<BasicBlockId, Vec<BasicBlockId>>)
        requires
            self.wf(),
            self.spec_fn_def().n() + 9 <= usize::MAX,
        ensures
            r@.len() == self.spec_fn_def().n() + 2,
            forall|b: int| 0 <= b < r@.len() ==> sorted_ids((#[trigger] r@[b])@),
            forall|b: int| 0 <= b < r@.len()
                ==> ids_below((#[trigger] r@[b])@, self.spec_fn_def().n() + 2),
            // The membership property, relative to the dominance relation:
            // each row of the recursion is certified against the greatest
            // solution of the dominator equations and rebuilt from the
            // definition where the sets contradict it.
            forall|s: Seq<Set<int>>|
                #[trigger] greatest_dom_solution(
                    self.spec_fn_def(),
                    s,
                    8 * ((self.spec_fn_def().n() + 2 + 7) / 8),
                ) ==> forall|nn: int, y: int| 0 <= nn <= self.spec_fn_def().n()
                    && 0 <= y <= self.spec_fn_def().n()
                    ==> (id_in(r@[nn]@, BasicBlockId(y as usize))
                        <==> in_frontier(self.spec_fn_def(), s, nn, y)),
    {
        let f = self.fn_def;
        let n = f.blocks.len();
        let np = f.preds.len();
        proof {
            assert(np == f.n() + 2);
        }
        let mut frontiers: IndexMap<BasicBlockId, Vec<BasicBlockId>> =
            IndexMap::with_capacity(np);
        let mut visited: Vec<bool> = Vec::with_capacity(np);
        let mut k: usize = 0;
        while k < np
            invariant
                0 <= k <= np,
                frontiers@.len() == k,
                visited@.len() == k,
                forall|b: int| 0 <= b < k ==> (#[trigger] frontiers@[b])@.len() == 0,
                forall|b: int| 0 <= b < k ==> !(#[trigger] visited@[b]),
            decreases np - k,
        {
            frontiers.push(Vec::new());
            visited.push(false);
            k = k + 1;
        }

        // An explicit post-order walk: `false` enters a block, `true`
        // finishes it once its children are done.
        let mut stack: Vec<(BasicBlockId, bool)> = Vec::new();
        stack.push((BasicBlockId(n), false));
        proof {
            lemma_count_false_nonneg(visited@);
        }
        while stack.len() > 0
            invariant
                self.wf(),
                f == self.spec_fn_def(),
                n == f.n(),
                np == f.n() + 2,
                np == self.spec_idoms().len(),
                visited@.len() == np,
                frontiers@.len() == np,
                count_false(visited@) >= 0,
                forall|s: int| 0 <= s < stack@.len() ==> (#[trigger] stack@[s]).0.0 < np,
                forall|b: int| 0 <= b < np ==> sorted_ids((#[trigger] frontiers@[b])@),
                forall|b: int| 0 <= b < np
                    ==> ids_below((#[trigger] frontiers@[b])@, np as int),
            decreases count_false(visited@), stack@.len(),
        {
            let (block, leave) = stack.pop().unwrap();
            if leave {
                // Every child is done: assemble this block's frontier.
                let mut s: Vec<BasicBlockId> = Vec::new();
                let succs = f.succs.at(block);
                let nsuccs = succs.len();
                let mut j: usize = 0;
                while j < nsuccs
                    invariant
                        self.wf(),
                        f == self.spec_fn_def(),
                        np == f.n() + 2,
                        np == self.spec_idoms().len(),
                        block.0 < np,
                        nsuccs == f.succs@[block.0 as int]@.len(),
                        succs@ == f.succs@[block.0 as int]@,
                        0 <= j <= nsuccs,
                        sorted_ids(s@),
                        ids_below(s@, np as int),
                    decreases nsuccs - j,
                {
                    let y = succs[j];
                    proof {
                        assert(f.succs@[block.0 as int]@[j as int].0 < np);
                    }
                    let is_own = match *self.idoms.at(y) {
                        Some(x) => x == block,
                        None => false,
                    };
                    if !is_own {
                        let ghost pre = s@;
                        insert_sorted(&mut s, y);
                        proof {
                            assert forall|i: int| 0 <= i < s@.len()
                                implies (#[trigger] s@[i]).0 < np by {
                                if s@[i] != y {
                                    assert(crate::mir::id_in(pre, s@[i]));
                                    let w = choose|w: int| 0 <= w < pre.len()
                                        && pre[w] == s@[i];
                                    assert(pre[w].0 < np);
                                }
                            }
                        }
                    }
                    j = j + 1;
                }
                let children = self.domtree.at(block);
                let nchildren = children.len();
                let mut c: usize = 0;
                while c < nchildren
                    invariant
                        self.wf(),
                        f == self.spec_fn_def(),
                        np == f.n() + 2,
                        np == self.spec_idoms().len(),
                        frontiers@.len() == np,
                        block.0 < np,
                        nchildren == self.spec_domtree()[block.0 as int]@.len(),
                        children@ == self.spec_domtree()[block.0 as int]@,
                        0 <= c <= nchildren,
                        sorted_ids(s@),
                        ids_below(s@, np as int),
                        forall|b: int| 0 <= b < np
                            ==> sorted_ids((#[trigger] frontiers@[b])@),
                        forall|b: int| 0 <= b < np
                            ==> ids_below((#[trigger] frontiers@[b])@, np as int),
                    decreases nchildren - c,
                {
                    let child = children[c];
                    proof {
                        assert(self.spec_domtree()[block.0 as int]@[c as int].0 < np);
                    }
                    let fc = frontiers.at(child);
                    let nfc = fc.len();
                    let mut w: usize = 0;
                    while w < nfc
                        invariant
                            self.wf(),
                            f == self.spec_fn_def(),
                            np == f.n() + 2,
                            np == self.spec_idoms().len(),
                            frontiers@.len() == np,
                            child.0 < np,
                            fc == frontiers@[child.0 as int],
                            nfc == fc@.len(),
                            0 <= w <= nfc,
                            ids_below(fc@, np as int),
                            sorted_ids(s@),
                            ids_below(s@, np as int),
                        decreases nfc - w,
                    {
                        let cand = fc[w];
                        if !dominates(self.idoms, block, cand) {
                            let ghost pre = s@;
                            insert_sorted(&mut s, cand);
                            proof {
                                assert forall|i: int| 0 <= i < s@.len()
                                    implies (#[trigger] s@[i]).0 < np by {
                                    if s@[i] != cand {
                                        assert(crate::mir::id_in(pre, s@[i]));
                                        let w2 = choose|w2: int| 0 <= w2 < pre.len()
                                            && pre[w2] == s@[i];
                                        assert(pre[w2].0 < np);
                                    }
                                }
                            }
                        }
                        w = w + 1;
                    }
                    c = c + 1;
                }
                let slot = frontiers.get_mut(block);
                *slot = s;
            } else {
                if !visited[block.0] {
                    let ghost pre_visited = visited@;
                    let vslot = &mut visited[block.0];
                    *vslot = true;
                    proof {
                        lemma_count_false_update(pre_visited, block.0 as int);
                        lemma_count_false_nonneg(visited@);
                    }
                    stack.push((block, true));
                    let children = self.domtree.at(block);
                    let nchildren = children.len();
                    let mut c: usize = 0;
                    while c < nchildren
                        invariant
                            self.wf(),
                            f == self.spec_fn_def(),
                            np == f.n() + 2,
                            block.0 < np,
                            nchildren == self.spec_domtree()[block.0 as int]@.len(),
                            children@ == self.spec_domtree()[block.0 as int]@,
                            0 <= c <= nchildren,
                            forall|s2: int| 0 <= s2 < stack@.len()
                                ==> (#[trigger] stack@[s2]).0.0 < np,
                        decreases nchildren - c,
                    {
                        let child = children[c];
                        proof {
                            assert(self.spec_domtree()[block.0 as int]@[c as int].0 < np);
                        }
                        stack.push((child, false));
                        c = c + 1;
                    }
                }
            }
        }
        // Certify each row against the dominance relation the sets give,
        // and rebuild from the definition any row they contradict.
        let douts = Dominators::new(f).run();
        let mut nn: usize = 0;
        while nn <= n
            invariant
                self.wf(),
                f == self.spec_fn_def(),
                n == f.n(),
                np == f.n() + 2,
                n + 9 <= usize::MAX,
                douts@.len() == np,
                forall|j: int| 0 <= j < douts@.len()
                    ==> (#[trigger] douts@[j]).capacity() >= n + 2,
                0 <= nn <= n + 1,
                frontiers@.len() == np,
                forall|b: int| 0 <= b < np ==> sorted_ids((#[trigger] frontiers@[b])@),
                forall|b: int| 0 <= b < np
                    ==> ids_below((#[trigger] frontiers@[b])@, np as int),
                forall|nn2: int, y: int| 0 <= nn2 < nn && 0 <= y <= n as int
                    ==> (#[trigger] id_in(frontiers@[nn2]@, BasicBlockId(y as usize))
                        <==> in_frontier_bits(*f, douts@, nn2, y)),
            decreases n + 1 - nn,
        {
            let mut row_ok = true;
            let mut y: usize = 0;
            while y <= n
                invariant
                    self.wf(),
                    f == self.spec_fn_def(),
                    n == f.n(),
                    np == f.n() + 2,
                    n + 9 <= usize::MAX,
                    douts@.len() == np,
                    forall|j: int| 0 <= j < douts@.len()
                        ==> (#[trigger] douts@[j]).capacity() >= n + 2,
                    nn <= n,
                    frontiers@.len() == np,
                    0 <= y <= n + 1,
                    row_ok ==> forall|y2: int| 0 <= y2 < y
                        ==> (#[trigger] id_in(frontiers@[nn as int]@,
                            BasicBlockId(y2 as usize))
                            <==> in_frontier_bits(*f, douts@, nn as int, y2)),
                decreases n + 1 - y,
            {
                let has = row_contains(frontiers.at(BasicBlockId(nn)), y);
                let expect = check_frontier(f, &douts, nn, y);
                if has != expect {
                    row_ok = false;
                }
                y = y + 1;
            }
            if !row_ok {
                let mut fixed: Vec<BasicBlockId> = Vec::new();
                let mut y2: usize = 0;
                while y2 <= n
                    invariant
                        self.wf(),
                        f == self.spec_fn_def(),
                        n == f.n(),
                        np == f.n() + 2,
                        n + 9 <= usize::MAX,
                        douts@.len() == np,
                        forall|j: int| 0 <= j < douts@.len()
                            ==> (#[trigger] douts@[j]).capacity() >= n + 2,
                        nn <= n,
                        0 <= y2 <= n + 1,
                        sorted_ids(fixed@),
                        ids_below(fixed@, np as int),
                        forall|y3: int| #[trigger] id_in(fixed@, BasicBlockId(y3 as usize))
                            && 0 <= y3 <= n as int
                            <==> (0 <= y3 < y2
                                && in_frontier_bits(*f, douts@, nn as int, y3)),
                    decreases n + 1 - y2,
                {
                    if check_frontier(f, &douts, nn, y2) {
                        let ghost pre = fixed@;
                        insert_sorted(&mut fixed, BasicBlockId(y2));
                        proof {
                            assert forall|i2: int| 0 <= i2 < fixed@.len()
                                implies (#[trigger] fixed@[i2]).0 < np by {
                                if fixed@[i2] != BasicBlockId(y2) {
                                    assert(id_in(pre, fixed@[i2]));
                                    let w = choose|w: int| 0 <= w < pre.len()
                                        && pre[w] == fixed@[i2];
                                    assert(pre[w].0 < np);
                                }
                            }
                        }
                    }
                    y2 = y2 + 1;
                }
                let slot = frontiers.get_mut(BasicBlockId(nn));
                *slot = fixed;
            }
            nn = nn + 1;
        }
        proof {
            let capi: int = 8 * ((f.n() + 2 + 7) / 8);
            assert forall|s: Seq<Set<int>>| #[trigger] greatest_dom_solution(*f, s, capi)
                implies forall|nn2: int, y: int| 0 <= nn2 <= f.n() && 0 <= y <= f.n()
                    ==> (id_in(frontiers@[nn2]@, BasicBlockId(y as usize))
                        <==> in_frontier(*f, s, nn2, y)) by {
                // The computed rows are themselves a solution; mutual
                // containment makes the memberships agree.
                let sd = Seq::new(np as nat, |bb: int| Set::new(|i: int| douts@[bb]
                    .contains(i)));
                assert(crate::dataflow::dominators::dom_solution(*f, sd, capi)) by {
                    assert forall|b: int, i: int| 0 <= b < f.n()
                        implies (#[trigger] sd[b].contains(i) <==> (i == b || (0 <= i
                            < capi && forall|j: int| 0 <= j < f.preds@[b]@.len()
                                ==> sd[f.preds@[b]@[j].0 as int].contains(i)))) by {
                        assert(crate::dataflow::dominators::dom_eq(*f, douts@, b));
                        assert(douts@[b].contains(i) <==> (i == b || (0 <= i
                            < douts@[b].capacity() && forall|j: int|
                            0 <= j < f.preds@[b]@.len()
                                ==> douts@[f.preds@[b]@[j].0 as int].contains(i))));
                        assert(douts@[b].capacity() == capi);
                        assert forall|j: int| 0 <= j < f.preds@[b]@.len()
                            implies ((#[trigger] sd[f.preds@[b]@[j].0 as int].contains(i))
                                <==> douts@[f.preds@[b]@[j].0 as int].contains(i)) by {
                            assert(f.preds@[b]@[j].0 < np);
                        }
                    }
                    assert forall|i: int| #[trigger] sd[f.n()].contains(i)
                        implies i == f.n() by {}
                    assert forall|i: int| i == f.n() implies #[trigger] sd[f.n()]
                        .contains(i) by {}
                }
                assert forall|b: int, i: int| 0 <= b <= f.n()
                    implies (#[trigger] s[b].contains(i) <==> douts@[b].contains(i)) by {
                    if s[b].contains(i) {
                        assert(douts@[b].contains(i));
                    }
                    if douts@[b].contains(i) {
                        assert(sd[b].contains(i));
                        assert(s[b].contains(i));
                    }
                }
                assert forall|nn2: int, y: int| 0 <= nn2 <= f.n() && 0 <= y <= f.n()
                    implies (id_in(frontiers@[nn2]@, BasicBlockId(y as usize))
                        <==> in_frontier(*f, s, nn2, y)) by {
                    assert(id_in(frontiers@[nn2]@, BasicBlockId(y as usize))
                        <==> in_frontier_bits(*f, douts@, nn2, y));
                    // Predecessors lie at or below the entry sentinel, so
                    // the membership agreement covers them.
                    assert forall|j: int| 0 <= j < f.preds@[y]@.len()
                        implies (#[trigger] f.preds@[y]@[j]).0 <= f.n() by {
                        let p = f.preds@[y]@[j];
                        assert(id_in(f.preds@[y]@, p));
                        assert(f.edge(p, BasicBlockId(y as usize)));
                    }
                    if in_frontier_bits(*f, douts@, nn2, y) {
                        let j = choose|j: int| 0 <= j < f.preds@[y]@.len()
                            && douts@[(#[trigger] f.preds@[y]@[j]).0 as int].contains(nn2);
                        assert(s[f.preds@[y]@[j].0 as int].contains(nn2));
                        assert(in_frontier(*f, s, nn2, y));
                    }
                    if in_frontier(*f, s, nn2, y) {
                        let j = choose|j: int| 0 <= j < f.preds@[y]@.len()
                            && s[(#[trigger] f.preds@[y]@[j]).0 as int].contains(nn2);
                        assert(douts@[f.preds@[y]@[j].0 as int].contains(nn2));
                        assert(in_frontier_bits(*f, douts@, nn2, y));
                    }
                }
            }
        }
        frontiers
    }
}

} // verus!
