//! Reaching definitions as a forward may-analysis.
//!
//! A definition is either a `Dummy` for the initial value of a non-parameter
//! local, or a `Real` site for each `Assign`. The kill set of an assignment
//! is every definition of the same local; its gen set is itself. The entry
//! sentinel's out-set holds every `Dummy`; the join is the union over the
//! predecessors.

use vstd::prelude::*;

use crate::dataflow::bit_set::{
    lemma_count_below_lt, lemma_proper_subset_witness, BitSet,
};
use crate::dataflow::{
    lemma_rows_count_update, lemma_rows_count_upper, rows_count, Def,
};
use crate::index::IndexMap;
use crate::mir::{BasicBlockId, Function, Local, Statement};

verus! {

/// The union of the predecessors' out-sets, as a set of definition indices.
pub open spec fn rd_join(f: Function, outs: Seq<BitSet>, b: int) -> Set<int> {
    Set::new(|d: int| exists|j: int| 0 <= j < f.preds@[b]@.len()
        && outs[(#[trigger] f.preds@[b]@[j]).0 as int].contains(d))
}

/// The union of the predecessors' out-sets of an abstract family.
pub open spec fn rd_join_sets(f: Function, s: Seq<Set<int>>, b: int) -> Set<int> {
    Set::new(|d: int| exists|j: int| 0 <= j < f.preds@[b]@.len()
        && s[(#[trigger] f.preds@[b]@[j]).0 as int].contains(d))
}

impl<'flow> ReachingDefs<'flow> {
    /// The definitions, in the order they were numbered: the dummies first,
    /// then one per `Assign`, block by block, statement by statement.
    pub closed spec fn spec_defs(self) -> Seq<Def> {
        self.definitions@
    }

    /// The local each definition defines.
    pub closed spec fn spec_def_locals(self) -> Seq<Local> {
        self.def_locals@
    }

    /// The definition index of each statement, `None` for a `Nop`.
    pub closed spec fn spec_stmt_def(self) -> Seq<Seq<Option<usize>>> {
        Seq::new(self.stmt_def@.len() as nat, |b: int| self.stmt_def@[b]@)
    }

    /// The function being analysed.
    pub closed spec fn spec_fn_def(self) -> Function {
        *self.fn_def
    }

    /// How many definitions there are.
    pub open spec fn ndefs(self) -> int {
        self.spec_defs().len() as int
    }

    /// How many dummy definitions there are.
    pub open spec fn ndummy(self) -> int {
        self.spec_fn_def().locals@.len() - self.spec_fn_def().arity
    }

    /// The indices killed by a definition of `l`.
    pub open spec fn kill_of(self, l: Local) -> Set<int> {
        Set::new(|x: int| 0 <= x < self.ndefs() && self.spec_def_locals()[x] == l)
    }

    /// The set reaching the end of the first `upto` statements of block `b`,
    /// starting from `base` at the block head: each assignment kills every
    /// definition of its own local and generates itself.
    pub open spec fn rd_xfer(self, b: int, upto: int, base: Set<int>) -> Set<int>
        decreases upto,
    {
        if upto <= 0 {
            base
        } else {
            let prev = self.rd_xfer(b, upto - 1, base);
            match self.spec_stmt_def()[b][upto - 1] {
                Some(d) => prev.difference(self.kill_of(self.spec_def_locals()[d as int]))
                    .insert(d as int),
                None => prev,
            }
        }
    }

    /// Does row `b` of `outs` satisfy its reaching-definitions equation?
    pub open spec fn rd_eq(self, outs: Seq<BitSet>, b: int) -> bool {
        forall|d: int| #[trigger] outs[b].contains(d) <==> self.rd_xfer(
            b,
            self.spec_stmt_def()[b].len() as int,
            rd_join(self.spec_fn_def(), outs, b),
        ).contains(d)
    }

    /// One direction of the equation: everything row `b` holds, its
    /// transfer produces. Empty rows satisfy it, and it keeps every
    /// recomputation from shrinking a row, so the sets only grow.
    pub open spec fn rd_sub(self, outs: Seq<BitSet>, b: int) -> bool {
        forall|d: int| #[trigger] outs[b].contains(d) ==> self.rd_xfer(
            b,
            self.spec_stmt_def()[b].len() as int,
            rd_join(self.spec_fn_def(), outs, b),
        ).contains(d)
    }

    /// The transfer is monotone in the set flowing into the block head.
    proof fn lemma_rd_xfer_mono(self, b: int, upto: int, s1: Set<int>, s2: Set<int>)
        requires
            forall|d: int| #[trigger] s1.contains(d) ==> s2.contains(d),
        ensures
            forall|d: int| #[trigger] self.rd_xfer(b, upto, s1).contains(d)
                ==> self.rd_xfer(b, upto, s2).contains(d),
        decreases upto,
    {
        if upto > 0 {
            self.lemma_rd_xfer_mono(b, upto - 1, s1, s2);
            let p1 = self.rd_xfer(b, upto - 1, s1);
            let p2 = self.rd_xfer(b, upto - 1, s2);
            match self.spec_stmt_def()[b][upto - 1] {
                Some(dd) => {
                    let kill = self.kill_of(self.spec_def_locals()[dd as int]);
                    assert(self.rd_xfer(b, upto, s1)
                        == p1.difference(kill).insert(dd as int));
                    assert(self.rd_xfer(b, upto, s2)
                        == p2.difference(kill).insert(dd as int));
                    assert forall|d: int| #[trigger] self.rd_xfer(b, upto, s1).contains(d)
                        implies self.rd_xfer(b, upto, s2).contains(d) by {
                        if d != dd as int {
                            assert(p1.contains(d) && !kill.contains(d));
                            assert(p2.contains(d));
                        }
                    }
                }
                None => {
                    assert(self.rd_xfer(b, upto, s1) == p1);
                    assert(self.rd_xfer(b, upto, s2) == p2);
                }
            }
        }
    }

    /// Any family of sets that satisfies the reaching-definitions
    /// equations for every real block and pins the entry row to the
    /// dummies.
    pub open spec fn rd_solution(self, s: Seq<Set<int>>) -> bool {
        &&& s.len() == self.spec_fn_def().n() + 2
        &&& forall|b: int, d: int| 0 <= b < self.spec_fn_def().n()
            ==> (#[trigger] s[b].contains(d) <==> self.rd_xfer(
                b,
                self.spec_stmt_def()[b].len() as int,
                rd_join_sets(self.spec_fn_def(), s, b),
            ).contains(d))
        &&& forall|d: int| #[trigger] s[self.spec_fn_def().n()].contains(d)
            <==> 0 <= d < self.ndummy()
    }

    /// The structural facts `new` establishes and `run` relies on.
    pub open spec fn wf(self) -> bool {
        let f = self.spec_fn_def();
        &&& f.wf()
        &&& self.spec_defs().len() == self.spec_def_locals().len()
        &&& self.ndummy() <= self.ndefs()
        &&& forall|k: int| 0 <= k < self.ndummy()
            ==> #[trigger] self.spec_defs()[k] == Def::Dummy(
                Local((f.arity + k) as usize),
            ) && self.spec_def_locals()[k] == Local((f.arity + k) as usize)
        &&& self.spec_stmt_def().len() == f.n()
        &&& forall|b: int| 0 <= b < f.n()
            ==> (#[trigger] self.spec_stmt_def()[b]).len()
                == f.blocks@[b].statements@.len()
        &&& forall|b: int, i: int| 0 <= b < f.n() && 0 <= i < self.spec_stmt_def()[b].len()
            ==> match #[trigger] self.spec_stmt_def()[b][i] {
                Some(d) => f.blocks@[b].statements@[i] is Assign && self.ndummy() <= d
                    < self.ndefs() && self.spec_defs()[d as int] == (Def::Real {
                    block: BasicBlockId(b as usize),
                    stmt_index: i as usize,
                }) && self.spec_def_locals()[d as int]
                    == f.blocks@[b].statements@[i]->Assign_lhs,
                None => f.blocks@[b].statements@[i] is Nop,
            }
        &&& self.spec_kill().len() == f.locals@.len()
        &&& forall|l: int| 0 <= l < f.locals@.len()
            ==> (#[trigger] self.spec_kill()[l]).capacity() == 8 * ((self.ndefs() + 7) / 8)
        &&& forall|l: int, d: int| 0 <= l < f.locals@.len()
            ==> (#[trigger] self.spec_kill()[l].contains(d) <==> (0 <= d < self.ndefs()
                && self.spec_def_locals()[d] == Local(l as usize)))
    }

    /// The per-local kill sets.
    pub closed spec fn spec_kill(self) -> Seq<BitSet> {
        self.local_defsets@
    }
}

/// The reaching-definitions analysis over one function.
pub struct ReachingDefs<'flow> {
    definitions: Vec<Def>,
    def_locals: Vec<Local>,
    stmt_def: IndexMap<BasicBlockId, Vec<Option<usize>>>,
    local_defsets: IndexMap<Local, BitSet>,
    fn_def: &'flow Function,
}

impl<'flow> ReachingDefs<'flow> {
    /// Number the definitions of `fn_def` and precompute each local's kill
    /// set.
    pub fn new(fn_def: &'flow Function) -> (r: Self)
        requires
            fn_def.wf(),
        ensures
            r.spec_fn_def() == *fn_def,
            r.wf(),
    {
        let f = fn_def;
        let nlocals = f.locals.len();
        let arity = f.arity;
        let mut definitions: Vec<Def> = Vec::new();
        let mut def_locals: Vec<Local> = Vec::new();
        let mut k: usize = arity;
        while k < nlocals
            invariant
                arity == f.arity,
                arity <= nlocals,
                nlocals == f.locals@.len(),
                arity <= k <= nlocals,
                definitions@.len() == k - arity,
                def_locals@.len() == k - arity,
                forall|j: int| 0 <= j < k - arity
                    ==> #[trigger] definitions@[j] == Def::Dummy(Local((arity + j) as usize))
                        && def_locals@[j] == Local((arity + j) as usize),
            decreases nlocals - k,
        {
            definitions.push(Def::Dummy(Local(k)));
            def_locals.push(Local(k));
            k = k + 1;
        }
        let ghost ndummy = definitions@.len() as int;

        let n = f.blocks.len();
        let mut stmt_def: IndexMap<BasicBlockId, Vec<Option<usize>>> =
            IndexMap::with_capacity(n);
        let mut b: usize = 0;
        while b < n
            invariant
                f.wf(),
                n == f.n(),
                arity == f.arity,
                nlocals == f.locals@.len(),
                0 <= b <= n,
                ndummy == nlocals - arity,
                definitions@.len() == def_locals@.len(),
                ndummy <= definitions@.len(),
                forall|j: int| 0 <= j < ndummy
                    ==> #[trigger] definitions@[j] == Def::Dummy(Local((arity + j) as usize))
                        && def_locals@[j] == Local((arity + j) as usize),
                stmt_def@.len() == b,
                forall|b2: int| 0 <= b2 < b
                    ==> (#[trigger] stmt_def@[b2])@.len() == f.blocks@[b2].statements@.len(),
                forall|b2: int, i: int| 0 <= b2 < b && 0 <= i < stmt_def@[b2]@.len()
                    ==> match #[trigger] stmt_def@[b2]@[i] {
                        Some(d) => f.blocks@[b2].statements@[i] is Assign && ndummy <= d
                            < definitions@.len() && definitions@[d as int] == (Def::Real {
                            block: BasicBlockId(b2 as usize),
                            stmt_index: i as usize,
                        }) && def_locals@[d as int]
                            == f.blocks@[b2].statements@[i]->Assign_lhs,
                        None => f.blocks@[b2].statements@[i] is Nop,
                    },
            decreases n - b,
        {
            let blk = f.blocks.at(BasicBlockId(b));
            let nstmts = blk.statements.len();
            let mut row: Vec<Option<usize>> = Vec::with_capacity(nstmts);
            let mut i: usize = 0;
            while i < nstmts
                invariant
                    f.wf(),
                    n == f.n(),
                    0 <= b < n,
                    nstmts == f.blocks@[b as int].statements@.len(),
                    blk == f.blocks@[b as int],
                    0 <= i <= nstmts,
                    ndummy >= 0,
                    definitions@.len() == def_locals@.len(),
                    ndummy <= definitions@.len(),
                    forall|j: int| 0 <= j < ndummy
                        ==> #[trigger] definitions@[j]
                            == Def::Dummy(Local((arity + j) as usize))
                            && def_locals@[j] == Local((arity + j) as usize),
                    stmt_def@.len() == b,
                    forall|b2: int| 0 <= b2 < b
                        ==> (#[trigger] stmt_def@[b2])@.len()
                            == f.blocks@[b2].statements@.len(),
                    forall|b2: int, i2: int| 0 <= b2 < b && 0 <= i2 < stmt_def@[b2]@.len()
                        ==> match #[trigger] stmt_def@[b2]@[i2] {
                            Some(d) => f.blocks@[b2].statements@[i2] is Assign && ndummy <= d
                                < definitions@.len() && definitions@[d as int] == (Def::Real {
                                block: BasicBlockId(b2 as usize),
                                stmt_index: i2 as usize,
                            }) && def_locals@[d as int]
                                == f.blocks@[b2].statements@[i2]->Assign_lhs,
                            None => f.blocks@[b2].statements@[i2] is Nop,
                        },
                    row@.len() == i,
                    forall|i2: int| 0 <= i2 < i ==> match #[trigger] row@[i2] {
                        Some(d) => f.blocks@[b as int].statements@[i2] is Assign
                            && ndummy <= d < definitions@.len()
                            && definitions@[d as int] == (Def::Real {
                            block: BasicBlockId(b as usize),
                            stmt_index: i2 as usize,
                        }) && def_locals@[d as int]
                            == f.blocks@[b as int].statements@[i2]->Assign_lhs,
                        None => f.blocks@[b as int].statements@[i2] is Nop,
                    },
            decreases nstmts - i,
            {
                match &blk.statements[i] {
                    Statement::Assign { lhs, .. } => {
                        row.push(Some(definitions.len()));
                        definitions.push(Def::Real { block: BasicBlockId(b), stmt_index: i });
                        def_locals.push(*lhs);
                    }
                    Statement::Nop => {
                        row.push(None);
                    }
                }
                i = i + 1;
            }
            stmt_def.push(row);
            b = b + 1;
        }

        let ndefs = definitions.len();
        let mut local_defsets: IndexMap<Local, BitSet> = IndexMap::with_capacity(nlocals);
        let mut l: usize = 0;
        while l < nlocals
            invariant
                nlocals == f.locals@.len(),
                ndefs == definitions@.len(),
                definitions@.len() == def_locals@.len(),
                0 <= l <= nlocals,
                local_defsets@.len() == l,
                forall|l2: int| 0 <= l2 < l
                    ==> (#[trigger] local_defsets@[l2]).capacity() == 8 * ((ndefs + 7) / 8),
                forall|l2: int, d: int| 0 <= l2 < l
                    ==> (#[trigger] local_defsets@[l2].contains(d) <==> (0 <= d < ndefs
                        && def_locals@[d] == Local(l2 as usize))),
            decreases nlocals - l,
        {
            let mut ks = BitSet::new(ndefs);
            let mut d: usize = 0;
            while d < ndefs
                invariant
                    ndefs == def_locals@.len(),
                    0 <= d <= ndefs,
                    0 <= l < nlocals,
                    ks.capacity() == 8 * ((ndefs + 7) / 8),
                    ndefs <= ks.capacity(),
                    forall|d2: int| #[trigger] ks.contains(d2) <==> (0 <= d2 < d
                        && def_locals@[d2] == Local(l as usize)),
                decreases ndefs - d,
            {
                if def_locals[d] == Local(l) {
                    ks.insert(d);
                }
                d = d + 1;
            }
            local_defsets.push(ks);
            l = l + 1;
        }

        ReachingDefs { definitions, def_locals, stmt_def, local_defsets, fn_def }
    }

    /// How many definitions were numbered.
    pub fn definitions_len(&self) -> (r: usize)
        ensures
            r == self.ndefs(),
    {
        self.definitions.len()
    }

    /// Read definition `d`.
    pub fn definition_at(&self, d: usize) -> (r: &Def)
        requires
            d < self.ndefs(),
        ensures
            *r == self.spec_defs()[d as int],
    {
        &self.definitions[d]
    }

    /// Iterate to the fixed point of the reaching-definitions equations.
    ///
    /// The result holds one definition-index set per block, the sentinels
    /// included; row `b` satisfies `rd_eq` for every real block `b`, and
    /// the entry row holds exactly the dummies. The loop ends because a
    /// changed pass strictly grows the total member count.
    pub fn run(&self) -> (r: IndexMap<BasicBlockId, BitSet>)
        requires
            self.wf(),
            self.spec_fn_def().n() + 9 <= usize::MAX,
        ensures
            r@.len() == self.spec_fn_def().n() + 2,
            forall|b: int| 0 <= b < r@.len()
                ==> (#[trigger] r@[b]).capacity() == 8 * ((self.ndefs() + 7) / 8),
            forall|b: int| 0 <= b < self.spec_fn_def().n() ==> self.rd_eq(r@, b),
            forall|d: int| #[trigger] r@[self.spec_fn_def().n()].contains(d)
                <==> 0 <= d < self.ndummy(),
            // The result is the least solution: it sits inside every family
            // satisfying the equations, so the ascending iteration pins the
            // sets uniquely. The path-reachable definition sets are one
            // such family, and being minimal among them, equal to these.
            forall|s: Seq<Set<int>>| #[trigger] self.rd_solution(s)
                ==> forall|b: int, d: int| 0 <= b <= self.spec_fn_def().n()
                    && #[trigger] r@[b].contains(d) ==> s[b].contains(d),
    {
        let f = self.fn_def;
        let n = f.blocks.len();
        let np = f.preds.len();
        proof {
            assert(np == f.n() + 2);
        }
        let ndefs = self.definitions.len();
        let ghost cap = 8 * ((ndefs + 7) / 8);
        let ndummy = if f.locals.len() >= f.arity { f.locals.len() - f.arity } else { 0 };
        proof {
            assert(ndummy == self.ndummy());
        }

        let mut values_out: IndexMap<BasicBlockId, BitSet> = IndexMap::with_capacity(np);
        let mut k: usize = 0;
        while k < np
            invariant
                self.wf(),
                np == f.n() + 2,
                n == f.n(),
                ndefs == self.ndefs(),
                ndummy == self.ndummy(),
                ndummy <= ndefs,
                cap == 8 * ((ndefs + 7) / 8),
                0 <= k <= np,
                values_out@.len() == k,
                forall|j: int| 0 <= j < k
                    ==> (#[trigger] values_out@[j]).capacity() == cap,
                forall|j: int| 0 <= j < k && j != n
                    ==> (forall|d: int| !((#[trigger] values_out@[j]).contains(d))),
                forall|j: int| 0 <= j < k && j == n
                    ==> (forall|d: int| (#[trigger] values_out@[j]).contains(d)
                        <==> 0 <= d < ndummy),
            decreases np - k,
        {
            if k == n {
                let mut entry_out = BitSet::new(ndefs);
                let mut d: usize = 0;
                while d < ndummy
                    invariant
                        ndummy <= ndefs,
                        entry_out.capacity() == cap,
                        cap == 8 * ((ndefs + 7) / 8),
                        ndefs <= entry_out.capacity(),
                        0 <= d <= ndummy,
                        forall|d2: int| #[trigger] entry_out.contains(d2) <==> 0 <= d2 < d,
                    decreases ndummy - d,
                {
                    entry_out.insert(d);
                    d = d + 1;
                }
                values_out.push(entry_out);
            } else {
                values_out.push(BitSet::new(ndefs));
            }
            k = k + 1;
        }

        proof {
            // Empty rows trivially sit inside their transfers.
            assert forall|b2: int| 0 <= b2 < n implies self.rd_sub(values_out@, b2) by {}
            // Empty rows sit inside every solution, and the entry rows
            // agree exactly.
            assert forall|s: Seq<Set<int>>| #[trigger] self.rd_solution(s)
                implies forall|b2: int, d: int| 0 <= b2 <= n as int
                    && #[trigger] values_out@[b2].contains(d)
                    ==> s[b2].contains(d) by {
                assert forall|b2: int, d: int| 0 <= b2 <= n as int
                    && #[trigger] values_out@[b2].contains(d)
                    implies s[b2].contains(d) by {
                    if b2 == n as int {
                        assert(0 <= d < ndummy);
                    }
                }
            }
        }
        loop
            invariant
                self.wf(),
                np == f.n() + 2,
                n == f.n(),
                f == self.spec_fn_def(),
                ndefs == self.ndefs(),
                ndummy == self.ndummy(),
                cap == 8 * ((ndefs + 7) / 8),
                values_out@.len() == np,
                forall|j: int| 0 <= j < np
                    ==> (#[trigger] values_out@[j]).capacity() == cap,
                forall|d: int| (#[trigger] values_out@[n as int]).contains(d)
                    <==> 0 <= d < ndummy,
                forall|b2: int| 0 <= b2 < n ==> self.rd_sub(values_out@, b2),
                forall|s: Seq<Set<int>>| #[trigger] self.rd_solution(s)
                    ==> forall|b2: int, d: int| 0 <= b2 <= n as int
                        && #[trigger] values_out@[b2].contains(d) ==> s[b2].contains(d),
            decreases np as int * cap as int - rows_count(values_out@, np as int),
        {
            let ghost start = values_out@;
            let mut changed = false;
            let mut b: usize = 0;
            while b < n
                invariant
                    self.wf(),
                    np == f.n() + 2,
                    n == f.n(),
                    f == self.spec_fn_def(),
                    ndefs == self.ndefs(),
                    ndummy == self.ndummy(),
                    cap == 8 * ((ndefs + 7) / 8),
                    0 <= b <= n,
                    values_out@.len() == np,
                    forall|j: int| 0 <= j < np
                        ==> (#[trigger] values_out@[j]).capacity() == cap,
                    forall|d: int| (#[trigger] values_out@[n as int]).contains(d)
                        <==> 0 <= d < ndummy,
                    forall|b2: int| 0 <= b2 < n ==> self.rd_sub(values_out@, b2),
                    forall|s: Seq<Set<int>>| #[trigger] self.rd_solution(s)
                    ==> forall|b2: int, d: int| 0 <= b2 <= n as int
                        && #[trigger] values_out@[b2].contains(d) ==> s[b2].contains(d),
                rows_count(values_out@, np as int) >= rows_count(start, np as int),
                    changed ==> rows_count(values_out@, np as int)
                        > rows_count(start, np as int),
                    !changed ==> values_out@ == start,
                    !changed ==> forall|b2: int| 0 <= b2 < b
                        ==> self.rd_eq(values_out@, b2),
                decreases n - b,
            {
                let preds = f.preds.at(BasicBlockId(b));
                let mut new_out = BitSet::new(ndefs);
                let ghost base = rd_join(*f, values_out@, b as int);
                let npreds = preds.len();
                let mut j: usize = 0;
                while j < npreds
                    invariant
                        self.wf(),
                        np == f.n() + 2,
                        n == f.n(),
                        f == self.spec_fn_def(),
                        ndefs == self.ndefs(),
                        cap == 8 * ((ndefs + 7) / 8),
                        0 <= b < n,
                        npreds == f.preds@[b as int]@.len(),
                        preds@ == f.preds@[b as int]@,
                        0 <= j <= npreds,
                        values_out@.len() == np,
                        forall|j2: int| 0 <= j2 < np
                            ==> (#[trigger] values_out@[j2]).capacity() == cap,
                        new_out.capacity() == cap,
                        forall|d: int| #[trigger] new_out.contains(d) <==> exists|j2: int|
                            0 <= j2 < j && values_out@[(#[trigger] preds@[j2]).0 as int]
                                .contains(d),
                    decreases npreds - j,
                {
                    let p = preds[j];
                    proof {
                        assert(f.preds@[b as int]@[j as int].0 < np);
                    }
                    let ghost prev = new_out;
                    new_out.union(values_out.at(p));
                    proof {
                        assert forall|d: int| #[trigger] new_out.contains(d)
                            implies exists|j2: int| 0 <= j2 < j + 1
                                && values_out@[(#[trigger] preds@[j2]).0 as int].contains(
                                d,
                            ) by {
                            if prev.contains(d) {
                                let j2 = choose|j2: int| 0 <= j2 < j
                                    && values_out@[(preds@[j2]).0 as int].contains(d);
                                assert(values_out@[(preds@[j2]).0 as int].contains(d));
                            } else {
                                assert(values_out@[(preds@[j as int]).0 as int].contains(d));
                            }
                        }
                        assert forall|d: int| (exists|j2: int| 0 <= j2 < j + 1
                            && values_out@[(#[trigger] preds@[j2]).0 as int].contains(d))
                            implies new_out.contains(d) by {
                            let j2 = choose|j2: int| 0 <= j2 < j + 1
                                && values_out@[(preds@[j2]).0 as int].contains(d);
                            if j2 < j {
                                assert(prev.contains(d));
                            }
                        }
                    }
                    j = j + 1;
                }
                proof {
                    assert forall|d: int| #[trigger] new_out.contains(d)
                        <==> base.contains(d) by {}
                    assert forall|d: int| #[trigger] new_out.contains(d)
                        <==> self.rd_xfer(b as int, 0, base).contains(d) by {}
                }
                // Transfer: kill then gen, statement by statement.
                let row = self.stmt_def.at(BasicBlockId(b));
                let blk = f.blocks.at(BasicBlockId(b));
                let nstmts = row.len();
                let mut i: usize = 0;
                while i < nstmts
                    invariant
                        self.wf(),
                        n == f.n(),
                        f == self.spec_fn_def(),
                        ndefs == self.ndefs(),
                        cap == 8 * ((ndefs + 7) / 8),
                        0 <= b < n,
                        row@ == self.spec_stmt_def()[b as int],
                        blk == f.blocks@[b as int],
                        nstmts == row@.len(),
                        0 <= i <= nstmts,
                        new_out.capacity() == cap,
                        forall|d: int| #[trigger] new_out.contains(d)
                            <==> self.rd_xfer(b as int, i as int, base).contains(d),
                    decreases nstmts - i,
                {
                    match row[i] {
                        Some(dd) => {
                            proof {
                                assert(self.spec_stmt_def()[b as int][i as int]
                                    == Some(dd));
                                assert(blk.statements@[i as int] is Assign);
                            }
                            let lhs = match &blk.statements[i] {
                                Statement::Assign { lhs, .. } => *lhs,
                                Statement::Nop => {
                                    proof {
                                        assert(false);
                                    }
                                    Local(0)
                                }
                            };
                            proof {
                                assert(lhs.0 < f.locals@.len());
                                assert(self.spec_def_locals()[dd as int] == lhs);
                            }
                            let kill = self.local_defsets.at(lhs);
                            let ghost prev = new_out;
                            new_out.difference(kill);
                            new_out.insert(dd);
                            proof {
                                let pset = self.rd_xfer(b as int, i as int, base);
                                let nset = self.rd_xfer(b as int, i + 1, base);
                                assert(nset == pset.difference(
                                    self.kill_of(self.spec_def_locals()[dd as int]),
                                ).insert(dd as int));
                                assert forall|d: int| #[trigger] new_out.contains(d)
                                    <==> nset.contains(d) by {
                                    assert(self.spec_kill()[lhs.0 as int].contains(d)
                                        <==> (0 <= d < ndefs
                                            && self.spec_def_locals()[d]
                                                == Local(lhs.0)));
                                }
                            }
                        }
                        None => {
                            proof {
                                assert(self.spec_stmt_def()[b as int][i as int] is None);
                                assert(self.rd_xfer(b as int, i + 1, base)
                                    == self.rd_xfer(b as int, i as int, base));
                            }
                        }
                    }
                    i = i + 1;
                }
                let same = new_out.same(values_out.at(BasicBlockId(b)));
                if !same {
                    proof {
                        // The row only grows: everything it held, the new
                        // set holds too.
                        assert forall|d: int| values_out@[b as int].contains(d)
                            implies #[trigger] new_out.contains(d) by {
                            assert(self.rd_sub(values_out@, b as int));
                            assert(self.rd_xfer(
                                b as int,
                                self.spec_stmt_def()[b as int].len() as int,
                                rd_join(*f, values_out@, b as int),
                            ).contains(d));
                        }
                    }
                    let ghost pre_rows = values_out@;
                    let ghost old_row = values_out@[b as int];
                    let slot = values_out.get_mut(BasicBlockId(b));
                    *slot = new_out;
                    changed = true;
                    proof {
                        assert forall|d: int| (#[trigger] values_out@[n as int]).contains(d)
                            <==> 0 <= d < ndummy by {}
                        // Strictly more members in the changed row, so
                        // strictly more in total.
                        let w = lemma_proper_subset_witness(old_row, new_out);
                        lemma_count_below_lt(old_row, new_out, new_out.capacity() as int, w);
                        lemma_rows_count_update(pre_rows, np as int, b as int, new_out);
                        assert(values_out@ =~= pre_rows.update(b as int, new_out));
                        assert(rows_count(values_out@, np as int)
                            > rows_count(pre_rows, np as int));
                        // The rows stay inside every solution: the new row
                        // is the transfer of a join the solution's own join
                        // contains.
                        assert forall|s: Seq<Set<int>>| #[trigger] self.rd_solution(s)
                            implies forall|b2: int, d: int| 0 <= b2 <= n as int
                                && #[trigger] values_out@[b2].contains(d)
                                ==> s[b2].contains(d) by {
                            assert forall|b2: int, d: int| 0 <= b2 <= n as int
                                && #[trigger] values_out@[b2].contains(d)
                                implies s[b2].contains(d) by {
                                if b2 == b as int {
                                    assert(new_out.contains(d));
                                    assert forall|d2: int| #[trigger] base.contains(d2)
                                        implies rd_join_sets(*f, s, b2).contains(d2) by {
                                        let j2 = choose|j2: int| 0 <= j2
                                            < f.preds@[b2]@.len()
                                            && pre_rows[(#[trigger] f.preds@[b2]@[j2]).0
                                                as int].contains(d2);
                                        let p = f.preds@[b2]@[j2];
                                        assert(crate::mir::id_in(f.preds@[b2]@, p));
                                        assert(f.edge(p, BasicBlockId(b)));
                                        assert(p.0 <= n);
                                        assert(s[p.0 as int].contains(d2));
                                    }
                                    self.lemma_rd_xfer_mono(
                                        b2,
                                        self.spec_stmt_def()[b2].len() as int,
                                        base,
                                        rd_join_sets(*f, s, b2),
                                    );
                                    assert(self.rd_xfer(
                                        b2,
                                        self.spec_stmt_def()[b2].len() as int,
                                        rd_join_sets(*f, s, b2),
                                    ).contains(d));
                                } else {
                                    assert(pre_rows[b2].contains(d));
                                }
                            }
                        }
                        // The one-directional equation survives the growth.
                        assert forall|b2: int| 0 <= b2 < n
                            implies self.rd_sub(values_out@, b2) by {
                            assert forall|d: int| 0 <= b2 < n
                                && #[trigger] values_out@[b2].contains(d)
                                implies self.rd_xfer(
                                b2,
                                self.spec_stmt_def()[b2].len() as int,
                                rd_join(*f, values_out@, b2),
                            ).contains(d) by {
                                assert forall|d2: int| #[trigger] rd_join(
                                    *f,
                                    pre_rows,
                                    b2,
                                ).contains(d2) implies rd_join(*f, values_out@, b2)
                                    .contains(d2) by {
                                    let j2 = choose|j2: int| 0 <= j2
                                        < f.preds@[b2]@.len()
                                        && pre_rows[(#[trigger] f.preds@[b2]@[j2]).0
                                            as int].contains(d2);
                                    assert(values_out@[f.preds@[b2]@[j2].0 as int]
                                        .contains(d2));
                                }
                                self.lemma_rd_xfer_mono(
                                    b2,
                                    self.spec_stmt_def()[b2].len() as int,
                                    rd_join(*f, pre_rows, b2),
                                    rd_join(*f, values_out@, b2),
                                );
                                if b2 == b as int {
                                    assert(new_out.contains(d));
                                    assert(self.rd_xfer(
                                        b2,
                                        self.spec_stmt_def()[b2].len() as int,
                                        rd_join(*f, pre_rows, b2),
                                    ).contains(d));
                                } else {
                                    assert(pre_rows[b2].contains(d));
                                    assert(self.rd_sub(pre_rows, b2));
                                    assert(self.rd_xfer(
                                        b2,
                                        self.spec_stmt_def()[b2].len() as int,
                                        rd_join(*f, pre_rows, b2),
                                    ).contains(d));
                                }
                            }
                        }
                    }
                } else {
                    proof {
                        assert forall|d: int| #[trigger] values_out@[b as int].contains(d)
                            <==> self.rd_xfer(
                            b as int,
                            self.spec_stmt_def()[b as int].len() as int,
                            rd_join(*f, values_out@, b as int),
                        ).contains(d) by {
                            assert(new_out.contains(d)
                                <==> values_out@[b as int].contains(d));
                        }
                        assert(self.rd_eq(values_out@, b as int));
                    }
                }
                b = b + 1;
            }
            if !changed {
                return values_out;
            }
            proof {
                lemma_rows_count_upper(values_out@, np as int, cap as int);
            }
        }
    }
}

} // verus!
