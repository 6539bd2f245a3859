//! The solving engine: problem model, preprocessing, the assignment trail,
//! watched-literal bookkeeping, unit propagation, the decision heuristic,
//! and the recursive backtracking search.

use vstd::prelude::*;
use vstd::pervasive::VecAdditionalExecFns;

use crate::formula::{
    all_lits_ok, asn_extends, clause_all_false, clause_has_true, clause_score,
    clause_two_unassigned, cnt_in, cnt_lit, full_clause_sat, full_lit_sat, full_sat, is_taut,
    lemma_asn_determined, lemma_cnt_in_le_len, lemma_cnt_in_nonneg, lemma_cnt_in_push,
    lemma_cnt_lit_nonneg, lemma_cnt_lit_push, lemma_cnt_pair_le_total, lemma_conflict,
    lemma_extends_trans, lemma_flip_pure, lemma_num_unassigned_extends, lemma_num_unassigned_nonneg,
    lemma_num_unassigned_update, lemma_prefix_trans, lemma_take_push, lemma_taut_sat,
    lemma_total_lits_nonneg, lemma_total_lits_take_le, lemma_total_lits_update, lemma_unit_forces,
    lemma_insert_point, lemma_sort_by_len_len, lemma_var_positions_nonneg,
    lemma_var_positions_pos, lemma_var_score_lower, lemma_var_score_push, lit_ok, lit_pol, lit_val,
    lit_var, lits_ok, non_taut, num_unassigned, insert_by_len, pol_spec, sort_by_len, total_compat,
    total_lits, trail_inv, var_positions_upto, var_score,
};

verus! {

/// A vector of clauses as a sequence of sequences of literals.
pub open spec fn view_cs(v: Vec<Vec<i32>>) -> Seq<Seq<i32>> {
    Seq::new(v@.len(), |k: int| v@[k]@)
}

/// Builds a vector of `n` empty watch lists.
fn empty_lists(n: usize) -> (r: Vec<Vec<usize>>)
    ensures
        r@.len() == n,
        forall|i: int| 0 <= i < n ==> r@[i]@.len() == 0,
{
    let mut r: Vec<Vec<usize>> = Vec::new();
    let mut i: usize = 0;
    while i < n
        invariant
            i <= n,
            r@.len() == i,
            forall|q: int| 0 <= q < i ==> r@[q]@.len() == 0,
        decreases n - i,
    {
        r.push(Vec::new());
        i = i + 1;
    }
    r
}

/// Builds a vector holding `n` copies of one value.
fn filled<T: Copy>(x: T, n: usize) -> (r: Vec<T>)
    ensures
        r@.len() == n,
        forall|i: int| 0 <= i < n ==> r@[i] == x,
{
    let mut r: Vec<T> = Vec::new();
    let mut i: usize = 0;
    while i < n
        invariant
            i <= n,
            r@.len() == i,
            forall|q: int| 0 <= q < i ==> r@[q] == x,
        decreases n - i,
    {
        r.push(x);
        i = i + 1;
    }
    r
}




/// The watch-list entries one clause contributes to list `p` at
/// construction: its index under its first literal's slot, and again
/// under its second literal's slot when it has two.
pub open spec fn clause_watch_entries(c: Seq<i32>, k: usize, p: int) -> Seq<usize> {
    if c.len() == 0 {
        Seq::empty()
    } else {
        (if Solver::lit_index_spec(c[0] as int) == p {
            seq![k]
        } else {
            Seq::empty()
        }) + (if c.len() > 1 && Solver::lit_index_spec(c[1] as int) == p {
            seq![k]
        } else {
            Seq::empty()
        })
    }
}

/// The exact content of watch list `p` right after preprocessing: the
/// contributions of every clause, in clause order.
pub open spec fn init_lists(cs: Seq<Seq<i32>>, p: int) -> Seq<usize>
    decreases cs.len(),
{
    if cs.len() == 0 {
        Seq::empty()
    } else {
        init_lists(cs.drop_last(), p) + clause_watch_entries(
            cs.last(),
            (cs.len() - 1) as usize,
            p,
        )
    }
}

/// Every clause of `a` occurs somewhere in `b`.
pub open spec fn each_in(a: Seq<Seq<i32>>, b: Seq<Seq<i32>>) -> bool {
    forall|m: int| 0 <= m < a.len() ==> #[trigger] b.contains(a[m])
}

/// Every non-tautological clause of `b` occurs somewhere in `a`.
pub open spec fn covers_non_taut(a: Seq<Seq<i32>>, b: Seq<Seq<i32>>) -> bool {
    forall|k0: int| 0 <= k0 < b.len() ==> is_taut(#[trigger] b[k0]) || a.contains(b[k0])
}

pub proof fn lemma_each_in_refl(a: Seq<Seq<i32>>)
    ensures
        each_in(a, a),
{
    assert forall|m: int| 0 <= m < a.len() implies #[trigger] a.contains(a[m]) by {
        assert(a[m] == a[m]);
    }
}

pub proof fn lemma_each_in_swap(
    pre: Seq<Seq<i32>>,
    base: Seq<Seq<i32>>,
    cur: Seq<Seq<i32>>,
    a: int,
    b: int,
)
    requires
        each_in(pre, base),
        0 <= a < b < pre.len(),
        cur == pre.update(a, pre[b]).update(b, pre[a]),
    ensures
        each_in(cur, base),
{
    assert forall|m: int| 0 <= m < cur.len() implies #[trigger] base.contains(cur[m]) by {
        let src = if m == a {
            b
        } else if m == b {
            a
        } else {
            m
        };
        assert(cur[m] == pre[src]);
        assert(base.contains(pre[src]));
    }
}

pub proof fn lemma_each_in_swapped(
    base: Seq<Seq<i32>>,
    pre: Seq<Seq<i32>>,
    cur: Seq<Seq<i32>>,
    a: int,
    b: int,
)
    requires
        each_in(base, pre),
        0 <= a < b < pre.len(),
        cur == pre.update(a, pre[b]).update(b, pre[a]),
    ensures
        each_in(base, cur),
{
    assert forall|m0: int| 0 <= m0 < base.len() implies #[trigger] cur.contains(base[m0]) by {
        assert(pre.contains(base[m0]));
        let m = choose|m: int| 0 <= m < pre.len() && pre[m] == base[m0];
        let dst = if m == a {
            b
        } else if m == b {
            a
        } else {
            m
        };
        assert(cur[dst] == base[m0]);
    }
}

pub proof fn lemma_each_in_trans(a: Seq<Seq<i32>>, b: Seq<Seq<i32>>, c: Seq<Seq<i32>>)
    requires
        each_in(a, b),
        each_in(b, c),
    ensures
        each_in(a, c),
{
    assert forall|m: int| 0 <= m < a.len() implies #[trigger] c.contains(a[m]) by {
        assert(b.contains(a[m]));
        let mb = choose|mb: int| 0 <= mb < b.len() && b[mb] == a[m];
        assert(c.contains(b[mb]));
        let m0 = choose|m0: int| 0 <= m0 < c.len() && c[m0] == b[mb];
        assert(c[m0] == a[m]);
    }
}

pub proof fn lemma_covers_trans(a: Seq<Seq<i32>>, b: Seq<Seq<i32>>, c: Seq<Seq<i32>>)
    requires
        covers_non_taut(b, c),
        each_in(b, a),
    ensures
        covers_non_taut(a, c),
{
    assert forall|k0: int|
        0 <= k0 < c.len() && !is_taut(#[trigger] c[k0]) implies a.contains(c[k0]) by {
        assert(b.contains(c[k0]));
        let mb = choose|mb: int| 0 <= mb < b.len() && b[mb] == c[k0];
        assert(a.contains(b[mb]));
        let m = choose|m: int| 0 <= m < a.len() && a[m] == b[mb];
        assert(a[m] == c[k0]);
    }
}

/// A kept clause set satisfies the whole set it was filtered from.
pub proof fn lemma_sat_of_kept(sigma: Seq<bool>, a: Seq<Seq<i32>>, b: Seq<Seq<i32>>, n: int)
    requires
        sigma.len() == n + 1,
        all_lits_ok(b, n),
        covers_non_taut(a, b),
        full_sat(sigma, a),
    ensures
        full_sat(sigma, b),
{
    assert forall|k0: int| 0 <= k0 < b.len() implies full_clause_sat(sigma, #[trigger] b[k0]) by {
        if is_taut(b[k0]) {
            lemma_taut_sat(sigma, b[k0], n);
        } else {
            assert(a.contains(b[k0]));
            let m = choose|m: int| 0 <= m < a.len() && a[m] == b[k0];
            assert(full_clause_sat(sigma, a[m]));
        }
    }
}

/// What satisfies the whole set satisfies everything kept from it.
pub proof fn lemma_sat_of_all(sigma: Seq<bool>, a: Seq<Seq<i32>>, b: Seq<Seq<i32>>)
    requires
        each_in(a, b),
        full_sat(sigma, b),
    ensures
        full_sat(sigma, a),
{
    assert forall|m: int| 0 <= m < a.len() implies full_clause_sat(sigma, #[trigger] a[m]) by {
        assert(b.contains(a[m]));
        let m0 = choose|m0: int| 0 <= m0 < b.len() && b[m0] == a[m];
        assert(full_clause_sat(sigma, b[m0]));
    }
}

pub proof fn lemma_filter_step_keep(
    kept0: Seq<Seq<i32>>,
    kv: Seq<Seq<i32>>,
    cs0: Seq<Seq<i32>>,
    k: int,
)
    requires
        0 <= k < cs0.len(),
        each_in(kept0, cs0.take(k)),
        covers_non_taut(kept0, cs0.take(k)),
        kv == kept0.push(cs0[k]),
    ensures
        each_in(kv, cs0.take(k + 1)),
        covers_non_taut(kv, cs0.take(k + 1)),
{
    lemma_take_push(cs0, k);
    assert(cs0.take(k + 1) == cs0.take(k).push(cs0[k]));
    assert forall|m: int| 0 <= m < kv.len() implies #[trigger] cs0.take(k + 1).contains(
        kv[m],
    ) by {
        if m == kv.len() - 1 {
            assert(cs0.take(k + 1)[k] == kv[m]);
        } else {
            assert(cs0.take(k).contains(kept0[m]));
            let m0 = choose|m0: int| 0 <= m0 < cs0.take(k).len() && cs0.take(k)[m0] == kept0[m];
            assert(cs0.take(k + 1)[m0] == kv[m]);
        }
    }
    assert forall|k0: int|
        0 <= k0 < cs0.take(k + 1).len() && !is_taut(#[trigger] cs0.take(k + 1)[k0]) implies kv
        .contains(cs0.take(k + 1)[k0]) by {
        if k0 == k {
            assert(kv[kv.len() - 1] == cs0.take(k + 1)[k0]);
        } else {
            assert(cs0.take(k)[k0] == cs0.take(k + 1)[k0]);
            assert(kept0.contains(cs0.take(k)[k0]));
            let m = choose|m: int| 0 <= m < kept0.len() && kept0[m] == cs0.take(k)[k0];
            assert(kv[m] == cs0.take(k + 1)[k0]);
        }
    }
}

pub proof fn lemma_filter_step_skip(kept0: Seq<Seq<i32>>, cs0: Seq<Seq<i32>>, k: int)
    requires
        0 <= k < cs0.len(),
        is_taut(cs0[k]),
        each_in(kept0, cs0.take(k)),
        covers_non_taut(kept0, cs0.take(k)),
    ensures
        each_in(kept0, cs0.take(k + 1)),
        covers_non_taut(kept0, cs0.take(k + 1)),
{
    lemma_take_push(cs0, k);
    assert(cs0.take(k + 1) == cs0.take(k).push(cs0[k]));
    assert forall|m: int| 0 <= m < kept0.len() implies #[trigger] cs0.take(k + 1).contains(
        kept0[m],
    ) by {
        assert(cs0.take(k).contains(kept0[m]));
        let m0 = choose|m0: int| 0 <= m0 < cs0.take(k).len() && cs0.take(k)[m0] == kept0[m];
        assert(cs0.take(k + 1)[m0] == kept0[m]);
    }
    assert forall|k0: int|
        0 <= k0 < cs0.take(k + 1).len() && !is_taut(#[trigger] cs0.take(k + 1)[k0]) implies kept0
        .contains(cs0.take(k + 1)[k0]) by {
        assert(k0 < k);
        assert(cs0.take(k)[k0] == cs0.take(k + 1)[k0]);
        assert(kept0.contains(cs0.take(k)[k0]));
        let m = choose|m: int| 0 <= m < kept0.len() && kept0[m] == cs0.take(k)[k0];
        assert(kept0[m] == cs0.take(k + 1)[k0]);
    }
}

/// Whether a clause holds some literal together with its negation.
#[verifier::loop_isolation(false)]
fn clause_is_taut(c: &Vec<i32>, Ghost(n): Ghost<int>) -> (taut: bool)
    requires
        lits_ok(c@, n),
        n <= i32::MAX as int,
    ensures
        taut == is_taut(c@),
{
    let c_len: usize = c.len();
    let mut taut: bool = false;
    let mut i: usize = 0;
    while i < c_len && !taut
        invariant
            i <= c_len,
            c_len == c@.len(),
            taut ==> is_taut(c@),
            !taut ==> forall|a: int, b: int|
                0 <= a < b < c@.len() && a < i ==> #[trigger] c@[a] as int != -(
                #[trigger] c@[b] as int),
        decreases c_len - i,
    {
        let mut j: usize = i + 1;
        while j < c_len && !taut
            invariant
                i < j <= c_len,
                i < c_len,
                c_len == c@.len(),
                taut ==> is_taut(c@),
                !taut ==> forall|a: int, b: int|
                    0 <= a < b < c@.len() && a < i ==> #[trigger] c@[a] as int != -(
                    #[trigger] c@[b] as int),
                !taut ==> forall|b: int|
                    i < b < j ==> c@[i as int] as int != -(#[trigger] c@[b] as int),
            decreases c_len - j,
        {
            assert(lit_ok(c@[j as int] as int, n));
            if c[i] == -c[j] {
                taut = true;
            }
            j = j + 1;
        }
        i = i + 1;
    }
    proof {
        if !taut && is_taut(c@) {
            let (a, b) = choose|a: int, b: int|
                0 <= a < c@.len() && 0 <= b < c@.len() && #[trigger] c@[a] as int == -(
                #[trigger] c@[b] as int);
            assert(lit_ok(c@[a] as int, n));
            assert(lit_ok(c@[b] as int, n));
            if a == b {
                assert(c@[a] as int == 0);
            } else if a < b {
                assert(c@[a] as int != -(c@[b] as int));
            } else {
                assert(c@[b] as int == -(c@[a] as int));
                assert(c@[b] as int != -(c@[a] as int));
            }
            assert(false);
        }
    }
    taut
}

/// A DPLL solver instance over an immutable, preprocessed clause set.
pub struct Solver {
    /// The clause set, tautologies dropped, ordered ascending by length.
    pub clauses: Vec<Vec<i32>>,
    /// Number of variables; literals range over 1..=num_vars.
    pub num_vars: usize,
    /// Tri-state value per variable (index 0 unused).
    pub assignment: Vec<Option<bool>>,
    /// The trail: literals in assignment order, for rollback.
    pub history: Vec<i32>,
    /// Static positive occurrence count per variable.
    pub positives: Vec<usize>,
    /// Static negative occurrence count per variable.
    pub negatives: Vec<usize>,
    /// Static polarity class per variable: 1 pure positive, -1 pure
    /// negative, 0 mixed or absent.
    pub literal_polarity: Vec<i8>,
    /// Per-clause pair of watched literal slots.
    pub watches: Vec<(usize, usize)>,
    /// For each encoded literal, the clauses currently watching it.
    pub watch_lists: Vec<Vec<usize>>,
}

impl Solver {
    /// The clause set as a sequence of sequences of literals.
    pub open spec fn cs(self) -> Seq<Seq<i32>> {
        view_cs(self.clauses)
    }

    /// The variable count as a mathematical integer.
    pub open spec fn n(self) -> int {
        self.num_vars as int
    }

    /// The occurrence counts and polarity classes match the clause set.
    pub open spec fn counts_ok(self) -> bool {
        &&& self.positives@.len() == self.n() + 1
        &&& self.negatives@.len() == self.n() + 1
        &&& self.literal_polarity@.len() == self.n() + 1
        &&& forall|v: int|
            1 <= v <= self.n() ==> (#[trigger] self.positives@[v]) as int == cnt_lit(self.cs(), v)
        &&& forall|v: int|
            1 <= v <= self.n() ==> (#[trigger] self.negatives@[v]) as int == cnt_lit(self.cs(), -v)
        &&& forall|v: int|
            1 <= v <= self.n() ==> (#[trigger] self.literal_polarity@[v]) as int == pol_spec(
                self.cs(),
                v,
            )
    }

    /// The watch structure stays within bounds: as many watch pairs as
    /// clauses, slots in range for clauses of length at least two, and
    /// watch lists holding clause indices only.
    ///
    /// The exact layout is pinned at construction (`init_lists` in the
    /// contracts of `preprocess` and `new`).  During search only these
    /// bounds are maintained: the index is bookkeeping that propagation
    /// never consults for the verdict — `bcp`'s full scans alone detect
    /// units and conflicts — so which lists a clause sits on after watch
    /// moves carries no contract.
    pub open spec fn watches_ok(self) -> bool {
        &&& self.watches@.len() == self.clauses@.len()
        &&& forall|k: int|
            0 <= k < self.clauses@.len() && self.clauses@[k]@.len() >= 2 ==> (
            #[trigger] self.watches@[k]).0 < self.clauses@[k]@.len() && self.watches@[k].1
                < self.clauses@[k]@.len()
        &&& self.watch_lists@.len() == 2 * (self.n() + 1)
        &&& forall|p: int, q: int|
            0 <= p < self.watch_lists@.len() && 0 <= q < self.watch_lists@[p]@.len() ==> (
            #[trigger] self.watch_lists@[p]@[q]) < self.clauses@.len()
    }

    /// The solver's invariant.
    pub open spec fn wf(self) -> bool {
        &&& trail_inv(self.assignment@, self.history@, self.n())
        &&& all_lits_ok(self.cs(), self.n())
        &&& total_lits(self.cs()) <= usize::MAX as int
        &&& self.n() <= i32::MAX as int
        &&& 2 * (self.n() + 1) <= usize::MAX as int
        &&& self.counts_ok()
        &&& self.watches_ok()
    }

    /// Everything but the clause set: search state, statistics, watches.
    pub open spec fn same_aux(self, other: Solver) -> bool {
        &&& self.num_vars == other.num_vars
        &&& self.assignment == other.assignment
        &&& self.history == other.history
        &&& self.positives == other.positives
        &&& self.negatives == other.negatives
        &&& self.literal_polarity == other.literal_polarity
        &&& self.watches == other.watches
        &&& self.watch_lists == other.watch_lists
    }

    /// The immutable problem data: clause set, variable count, and the
    /// static occurrence statistics.
    pub open spec fn same_problem(self, other: Solver) -> bool {
        &&& self.clauses == other.clauses
        &&& self.num_vars == other.num_vars
        &&& self.positives == other.positives
        &&& self.negatives == other.negatives
        &&& self.literal_polarity == other.literal_polarity
    }

    /// The untouched state a solver is in between construction of the
    /// struct and preprocessing: nothing assigned, nothing counted, no
    /// watches built.
    pub open spec fn pristine(self) -> bool {
        &&& self.assignment@.len() == self.n() + 1
        &&& forall|w: int| 0 <= w < self.assignment@.len() ==> (#[trigger] self.assignment@[w]) is None
        &&& self.history@.len() == 0
        &&& self.positives@.len() == self.n() + 1
        &&& forall|w: int| 0 <= w < self.positives@.len() ==> (#[trigger] self.positives@[w]) == 0
        &&& self.negatives@.len() == self.n() + 1
        &&& forall|w: int| 0 <= w < self.negatives@.len() ==> (#[trigger] self.negatives@[w]) == 0
        &&& self.literal_polarity@.len() == self.n() + 1
        &&& forall|w: int|
            0 <= w < self.literal_polarity@.len() ==> (#[trigger] self.literal_polarity@[w]) == 0
        &&& self.watches@.len() == 0
        &&& self.watch_lists@.len() == 2 * (self.n() + 1)
        &&& forall|p: int|
            0 <= p < self.watch_lists@.len() ==> (#[trigger] self.watch_lists@[p]@).len() == 0
        &&& all_lits_ok(self.cs(), self.n())
        &&& total_lits(self.cs()) <= usize::MAX as int
        &&& self.n() <= i32::MAX as int
        &&& 2 * (self.n() + 1) <= usize::MAX as int
    }

    /// Drops every clause that holds a literal together with its
    /// negation: such a clause is satisfied by every total assignment.
    #[verifier::loop_isolation(false)]
    #[verifier::rlimit(80)]
    fn drop_tautologies(&mut self) -> (kept: Vec<Vec<i32>>)
        requires
            all_lits_ok(old(self).cs(), old(self).n()),
            old(self).n() <= i32::MAX as int,
        ensures
            final(self).same_aux(*old(self)),
            all_lits_ok(view_cs(kept), old(self).n()),
            total_lits(view_cs(kept)) <= total_lits(old(self).cs()),
            each_in(view_cs(kept), old(self).cs()),
            covers_non_taut(view_cs(kept), old(self).cs()),
            forall|m: int|
                0 <= m < view_cs(kept).len() ==> !is_taut(#[trigger] view_cs(kept)[m]),
            view_cs(kept) == non_taut(old(self).cs()),
    {
        let ghost cs0 = old(self).cs();
        let n_cl: usize = self.clauses.len();
        // Drop every clause that holds a literal together with its negation.
        let mut kept: Vec<Vec<i32>> = Vec::new();
        proof {
            assert(view_cs(kept).len() == 0);
            assert(cs0.take(0).len() == 0);
            assert(each_in(view_cs(kept), cs0.take(0)));
            assert(covers_non_taut(view_cs(kept), cs0.take(0)));
            assert(view_cs(kept) =~= non_taut(cs0.take(0)));
        }
        let mut k: usize = 0;
        while k < n_cl
            invariant
                k <= n_cl,
                n_cl == cs0.len(),
                self.clauses@.len() == n_cl,
                self.same_aux(*old(self)),
                forall|q: int| k <= q < n_cl ==> (#[trigger] self.clauses@[q])@ == cs0[q],
                each_in(view_cs(kept), cs0.take(k as int)),
                covers_non_taut(view_cs(kept), cs0.take(k as int)),
                view_cs(kept) == non_taut(cs0.take(k as int)),
                forall|m: int|
                    0 <= m < view_cs(kept).len() ==> !is_taut(#[trigger] view_cs(kept)[m]),
                total_lits(view_cs(kept)) <= total_lits(cs0.take(k as int)),
                all_lits_ok(view_cs(kept), self.n()),
            decreases n_cl - k,
        {
            let ghost c = cs0[k as int];
            assert(lits_ok(c, self.n()));
            let mut cc: Vec<i32> = Vec::new();
            self.clauses.set_and_swap(k, &mut cc);
            assert(cc@ == c);
            let taut: bool = clause_is_taut(&cc, Ghost(self.n()));

            if !taut {
                let ghost kept0 = view_cs(kept);
                kept.push(cc);
                proof {
                    lemma_take_push(cs0, k as int);
                    lemma_cnt_lit_push(cs0.take(k as int), c, 0);
                    assert(view_cs(kept).drop_last() =~= kept0);
                    assert(view_cs(kept).last() == c);
                    assert(total_lits(view_cs(kept)) == total_lits(kept0) + c.len());
                    assert(view_cs(kept) =~= kept0.push(c));
                    lemma_filter_step_keep(kept0, view_cs(kept), cs0, k as int);
                    assert(cs0.take(k as int + 1).drop_last() =~= cs0.take(k as int));
                    assert(cs0.take(k as int + 1).last() == c);
                    assert(non_taut(cs0.take(k as int + 1)) == non_taut(cs0.take(k as int)).push(
                        c,
                    ));
                    assert forall|m: int| 0 <= m < view_cs(kept).len() implies !is_taut(
                        #[trigger] view_cs(kept)[m],
                    ) by {
                        if m < view_cs(kept).len() - 1 {
                            assert(view_cs(kept)[m] == kept0[m]);
                        }
                    }
                }
            } else {
                proof {
                    lemma_take_push(cs0, k as int);
                    lemma_cnt_lit_push(cs0.take(k as int), c, 0);
                    lemma_total_lits_nonneg(cs0.take(k as int));
                    lemma_filter_step_skip(view_cs(kept), cs0, k as int);
                    assert(cs0.take(k as int + 1).drop_last() =~= cs0.take(k as int));
                    assert(cs0.take(k as int + 1).last() == c);
                    assert(non_taut(cs0.take(k as int + 1)) == non_taut(cs0.take(k as int)));
                }
            }
            k = k + 1;
        }
        proof {
            assert(cs0.take(cs0.len() as int) =~= cs0);
        }
        kept
    }

    /// Sorts the clause set ascending by length, equal lengths keeping
    /// their original relative order, so shorter clauses propagate first.
    #[verifier::loop_isolation(false)]
    #[verifier::rlimit(80)]
    fn sort_clauses(&mut self)
        requires
            all_lits_ok(old(self).cs(), old(self).n()),
            forall|m: int| 0 <= m < old(self).cs().len() ==> !is_taut(#[trigger] old(self).cs()[m]),
        ensures
            final(self).same_aux(*old(self)),
            final(self).cs().len() == old(self).cs().len(),
            total_lits(final(self).cs()) == total_lits(old(self).cs()),
            all_lits_ok(final(self).cs(), old(self).n()),
            forall|m: int| 0 <= m < final(self).cs().len() ==> !is_taut(#[trigger] final(self).cs()[m]),
            each_in(final(self).cs(), old(self).cs()),
            each_in(old(self).cs(), final(self).cs()),
            forall|a: int, b: int|
                0 <= a <= b < final(self).cs().len() ==> (#[trigger] final(self).cs()[a]).len() <= (
                #[trigger] final(self).cs()[b]).len(),
            final(self).cs() == sort_by_len(old(self).cs()),
    {
        // Shorter clauses propagate first: sort ascending by length,
        // equal lengths keeping their relative order.
        let ghost base = self.cs();
        let ghost nn = self.n();
        proof {
            lemma_each_in_refl(self.cs());
            assert(each_in(self.cs(), base));
            assert(each_in(base, self.cs()));
            if base.len() > 0 {
                lemma_sort_by_len_len(base.take(1));
                assert(base.take(1).drop_last() =~= Seq::<Seq<i32>>::empty());
                assert(base.take(1).last() == base[0]);
                assert(sort_by_len(Seq::<Seq<i32>>::empty()) =~= Seq::<Seq<i32>>::empty());
                assert(insert_by_len(base[0], Seq::<Seq<i32>>::empty()) =~= seq![base[0]]);
                assert(sort_by_len(base.take(1)) == insert_by_len(
                    base.take(1).last(),
                    sort_by_len(base.take(1).drop_last()),
                ));
                assert(sort_by_len(base.take(1)) =~= seq![base[0]]);
                assert(sort_by_len(base.take(1)) + base.skip(1) =~= base);
            }
        }
        let mut si: usize = 1;
        while si < self.clauses.len()
            invariant
                1 <= si,
                self.clauses@.len() > 0 ==> si <= self.clauses@.len(),
                self.same_aux(*old(self)),
                self.cs().len() == base.len(),
                total_lits(self.cs()) == total_lits(base),
                all_lits_ok(self.cs(), nn),
                forall|m: int| 0 <= m < self.cs().len() ==> !is_taut(#[trigger] self.cs()[m]),
                each_in(self.cs(), base),
                each_in(base, self.cs()),
                forall|a: int, b: int|
                    0 <= a < b < si && b < self.cs().len() ==> (#[trigger] self.cs()[a]).len()
                        <= (#[trigger] self.cs()[b]).len(),
                self.clauses@.len() > 0 ==> si as int <= base.len() && self.cs() == sort_by_len(
                    base.take(si as int),
                ) + base.skip(si as int),
            decreases self.clauses@.len() - si,
        {
            let ghost ss = sort_by_len(base.take(si as int));
            let ghost mv = base[si as int];
            proof {
                lemma_sort_by_len_len(base.take(si as int));
                assert(ss.len() == si as int);
                assert(base.skip(si as int) =~= seq![mv] + base.skip(si as int + 1));
                assert(ss + (seq![mv] + base.skip(si as int + 1)) =~= ss.take(si as int) + seq![mv]
                    + ss.skip(si as int) + base.skip(si as int + 1));
            }
            let mut j: usize = si;
            while j > 0 && self.clauses[j - 1].len() > self.clauses[j].len()
                invariant
                    j <= si < self.clauses@.len(),
                    self.same_aux(*old(self)),
                    self.cs().len() == base.len(),
                    total_lits(self.cs()) == total_lits(base),
                    all_lits_ok(self.cs(), nn),
                    forall|m: int| 0 <= m < self.cs().len() ==> !is_taut(#[trigger] self.cs()[m]),
                    each_in(self.cs(), base),
                    each_in(base, self.cs()),
                    forall|a: int, b: int|
                        0 <= a < b <= si && b < self.cs().len() && a != j && b != j ==> (
                        #[trigger] self.cs()[a]).len() <= (#[trigger] self.cs()[b]).len(),
                    forall|b: int|
                        j < b <= si ==> (self.cs()[j as int]).len() < (#[trigger] self.cs()[b]).len(),
                    ss == sort_by_len(base.take(si as int)),
                    ss.len() == si as int,
                    mv == base[si as int],
                    self.cs() == ss.take(j as int) + seq![mv] + ss.skip(j as int) + base.skip(
                        si as int + 1,
                    ),
                decreases j,
            {
                let ghost pre = self.cs();
                let mut tmp: Vec<i32> = Vec::new();
                self.clauses.set_and_swap(j, &mut tmp);
                self.clauses.set_and_swap(j - 1, &mut tmp);
                self.clauses.set(j, tmp);
                proof {
                    let cur = self.cs();
                    assert(cur =~= pre.update(j - 1, pre[j as int]).update(j as int, pre[j - 1]));
                    lemma_total_lits_update(pre, j - 1, pre[j as int]);
                    lemma_total_lits_update(
                        pre.update(j - 1, pre[j as int]),
                        j as int,
                        pre[j - 1],
                    );
                    lemma_each_in_swap(pre, base, cur, j - 1, j as int);
                    lemma_each_in_swapped(base, pre, cur, j - 1, j as int);
                    assert forall|m: int| 0 <= m < cur.len() implies !is_taut(
                        #[trigger] cur[m],
                    ) && lits_ok(cur[m], nn) by {
                        if m == j - 1 {
                            assert(cur[m] == pre[j as int]);
                        } else if m == j {
                            assert(cur[m] == pre[j - 1]);
                        } else {
                            assert(cur[m] == pre[m]);
                        }
                    }
                    let want = ss.take(j - 1) + seq![mv] + ss.skip(j - 1) + base.skip(
                        si as int + 1,
                    );
                    assert forall|m: int| 0 <= m < cur.len() implies cur[m] == want[m] by {
                        if m < j - 1 {
                            assert(cur[m] == pre[m]);
                            assert(pre[m] == ss[m]);
                            assert(want[m] == ss[m]);
                        } else if m == j - 1 {
                            assert(cur[m] == pre[j as int]);
                            assert(pre[j as int] == mv);
                            assert(want[m] == mv);
                        } else if m == j {
                            assert(cur[m] == pre[j - 1]);
                            assert(pre[j - 1] == ss[j - 1]);
                            assert(want[m] == ss[m - 1]);
                        } else if m <= si {
                            assert(cur[m] == pre[m]);
                            assert(pre[m] == ss[m - 1]);
                            assert(want[m] == ss[m - 1]);
                        } else {
                            assert(cur[m] == pre[m]);
                            assert(pre[m] == base.skip(si as int + 1)[m - si - 1]);
                            assert(want[m] == base.skip(si as int + 1)[m - si - 1]);
                        }
                    }
                    assert(cur =~= want);
                }
                j = j - 1;
            }
            proof {
                assert forall|a: int, b: int|
                    0 <= a < b < ss.len() implies (#[trigger] ss[a]).len() <= (
                #[trigger] ss[b]).len() by {
                    if b < j {
                        assert(ss[a] == self.cs()[a]);
                        assert(ss[b] == self.cs()[b]);
                    } else if a < j {
                        assert(ss[a] == self.cs()[a]);
                        assert(ss[b] == self.cs()[b + 1]);
                    } else {
                        assert(ss[a] == self.cs()[a + 1]);
                        assert(ss[b] == self.cs()[b + 1]);
                    }
                }
                assert forall|a: int| 0 <= a < j implies (#[trigger] ss[a]).len() <= mv.len() by {
                    assert(ss[a] == self.cs()[a]);
                    assert(self.cs()[j as int] == mv);
                    if a < j - 1 {
                        assert(self.cs()[a].len() <= self.cs()[j - 1].len());
                    }
                }
                if (j as int) < ss.len() {
                    assert(ss[j as int] == self.cs()[j as int + 1]);
                    assert(mv.len() < ss[j as int].len());
                }
                lemma_insert_point(ss, mv, j as int);
                lemma_take_push(base, si as int);
                assert(base.take(si as int + 1).drop_last() =~= base.take(si as int));
                assert(base.take(si as int + 1).last() == mv);
                assert(sort_by_len(base.take(si as int + 1)) == insert_by_len(mv, ss));
                assert(self.cs() =~= insert_by_len(mv, ss) + base.skip(si as int + 1));
            }
            si = si + 1;
        }

        proof {
            if base.len() == 0 {
                assert(self.cs() =~= sort_by_len(base));
            } else {
                assert(si as int == base.len());
                assert(base.take(si as int) =~= base);
                assert(self.cs() =~= sort_by_len(base) + base.skip(si as int));
                assert(base.skip(si as int) =~= Seq::<Seq<i32>>::empty());
                assert(sort_by_len(base) + Seq::<Seq<i32>>::empty() =~= sort_by_len(base));
            }
        }
    }

    /// Builds the initial watch structure: every clause watches its first
    /// literal, and its second when it has one.
    #[verifier::loop_isolation(false)]
    fn build_watches(&mut self)
        requires
            all_lits_ok(old(self).cs(), old(self).n()),
            old(self).n() <= i32::MAX as int,
            2 * (old(self).n() + 1) <= usize::MAX as int,
            old(self).watch_lists@.len() == 2 * (old(self).n() + 1),
            forall|p: int|
                0 <= p < old(self).watch_lists@.len() ==> (
                #[trigger] old(self).watch_lists@[p]@).len() == 0,
        ensures
            final(self).clauses == old(self).clauses,
            final(self).num_vars == old(self).num_vars,
            final(self).assignment == old(self).assignment,
            final(self).history == old(self).history,
            final(self).positives == old(self).positives,
            final(self).negatives == old(self).negatives,
            final(self).literal_polarity == old(self).literal_polarity,
            final(self).watches@.len() == final(self).clauses@.len(),
            forall|k: int|
                0 <= k < final(self).watches@.len() ==> (#[trigger] final(self).watches@[k]) == (
                0usize,
                1usize,
            ),
            final(self).watch_lists@.len() == 2 * (final(self).n() + 1),
            forall|p: int, q: int|
                0 <= p < final(self).watch_lists@.len() && 0 <= q < final(self).watch_lists@[p]@.len() ==> (#[trigger] final(self).watch_lists@[p]@[q]) < final(self).clauses@.len(),
            forall|p: int|
                0 <= p < final(self).watch_lists@.len() ==> (#[trigger] final(self).watch_lists@[p])@
                    == init_lists(final(self).cs(), p),
    {
        // Watch the first literal of every clause, and the second where
        // there is one.
        self.watches = filled((0usize, 1usize), self.clauses.len());
        let mut idx: usize = 0;
        while idx < self.clauses.len()
            invariant
                idx <= self.clauses@.len(),
                self.clauses == old(self).clauses,
                self.num_vars == old(self).num_vars,
                self.assignment == old(self).assignment,
                self.history == old(self).history,
                self.positives == old(self).positives,
                self.negatives == old(self).negatives,
                self.literal_polarity == old(self).literal_polarity,
                self.watches@.len() == self.clauses@.len(),
                forall|k: int|
                    0 <= k < self.watches@.len() ==> (#[trigger] self.watches@[k]) == (
                    0usize,
                    1usize,
                ),
                self.watch_lists@.len() == 2 * (self.n() + 1),
                forall|p: int, q: int|
                    0 <= p < self.watch_lists@.len() && 0 <= q < self.watch_lists@[p]@.len() ==> (
                    #[trigger] self.watch_lists@[p]@[q]) < self.clauses@.len(),
                forall|p: int|
                    0 <= p < self.watch_lists@.len() ==> (#[trigger] self.watch_lists@[p])@
                        == init_lists(self.cs().take(idx as int), p),
                all_lits_ok(self.cs(), self.n()),
            decreases self.clauses@.len() - idx,
        {
            let ghost c = self.cs()[idx as int];
            proof {
                lemma_take_push(self.cs(), idx as int);
            }
            if self.clauses[idx].is_empty() {
                proof {
                    assert forall|p: int| 0 <= p < self.watch_lists@.len() implies (
                    #[trigger] self.watch_lists@[p])@ == init_lists(
                        self.cs().take(idx as int + 1),
                        p,
                    ) by {
                        assert(self.cs().take(idx as int + 1) == self.cs().take(
                            idx as int,
                        ).push(c));
                        assert(self.cs().take(idx as int + 1).drop_last() =~= self.cs().take(
                            idx as int,
                        ));
                        assert(self.cs().take(idx as int + 1).last() == c);
                        assert(self.cs().take(idx as int + 1).len() == idx as int + 1);
                        assert(clause_watch_entries(c, idx, p) =~= Seq::<usize>::empty());
                        assert(init_lists(self.cs().take(idx as int + 1), p) =~= init_lists(
                            self.cs().take(idx as int),
                            p,
                        ));
                    }
                }
                idx = idx + 1;
                continue ;
            }
            let ghost before = self.watch_lists@;
            let l0: i32 = self.clauses[idx][0];
            assert(lit_ok(l0 as int, self.n())) by {
                assert(self.cs()[idx as int][0] == l0);
            }
            let li0: usize = self.lit_index(l0);
            self.watch_lists[li0].push(idx);

            let mut has_second: bool = false;
            let mut li1: usize = 0;
            if self.clauses[idx].len() > 1 {
                let l1: i32 = self.clauses[idx][1];
                assert(lit_ok(l1 as int, self.n())) by {
                    assert(self.cs()[idx as int][1] == l1);
                }
                li1 = self.lit_index(l1);
                self.watch_lists[li1].push(idx);
                has_second = true;
            }
            proof {
                assert forall|p: int| 0 <= p < self.watch_lists@.len() implies (
                #[trigger] self.watch_lists@[p])@ == init_lists(
                    self.cs().take(idx as int + 1),
                    p,
                ) by {
                    assert(self.cs().take(idx as int + 1) == self.cs().take(
                        idx as int,
                    ).push(c));
                    assert(self.cs().take(idx as int + 1).drop_last() =~= self.cs().take(
                        idx as int,
                    ));
                    assert(self.cs().take(idx as int + 1).last() == c);
                    assert(self.cs().take(idx as int + 1).len() == idx as int + 1);
                    let want = init_lists(self.cs().take(idx as int), p) + clause_watch_entries(
                        c,
                        idx,
                        p,
                    );
                    assert(init_lists(self.cs().take(idx as int + 1), p) == want);
                    if has_second {
                        if p == li0 as int && p == li1 as int {
                            assert(self.watch_lists@[p]@ =~= before[p]@.push(idx).push(idx));
                            assert(clause_watch_entries(c, idx, p) =~= seq![idx].push(idx));
                            assert(self.watch_lists@[p]@ =~= want);
                        } else if p == li0 as int {
                            assert(self.watch_lists@[p]@ =~= before[p]@.push(idx));
                            assert(clause_watch_entries(c, idx, p) =~= seq![idx]);
                            assert(self.watch_lists@[p]@ =~= want);
                        } else if p == li1 as int {
                            assert(self.watch_lists@[p]@ =~= before[p]@.push(idx));
                            assert(clause_watch_entries(c, idx, p) =~= seq![idx]);
                            assert(self.watch_lists@[p]@ =~= want);
                        } else {
                            assert(self.watch_lists@[p]@ == before[p]@);
                            assert(clause_watch_entries(c, idx, p) =~= Seq::<usize>::empty());
                            assert(self.watch_lists@[p]@ =~= want);
                        }
                    } else {
                        if p == li0 as int {
                            assert(self.watch_lists@[p]@ =~= before[p]@.push(idx));
                            assert(clause_watch_entries(c, idx, p) =~= seq![idx]);
                            assert(self.watch_lists@[p]@ =~= want);
                        } else {
                            assert(self.watch_lists@[p]@ == before[p]@);
                            assert(clause_watch_entries(c, idx, p) =~= Seq::<usize>::empty());
                            assert(self.watch_lists@[p]@ =~= want);
                        }
                    }
                }
            }
            idx = idx + 1;
        }
        proof {
            assert(self.cs().take(self.clauses@.len() as int) =~= self.cs());
        }
    }

    /// Counts each variable's positive and negative occurrences over the
    /// clause set.
    #[verifier::loop_isolation(false)]
    #[verifier::rlimit(80)]
    fn count_occurrences(&mut self)
        requires
            all_lits_ok(old(self).cs(), old(self).n()),
            total_lits(old(self).cs()) <= usize::MAX as int,
            old(self).n() <= i32::MAX as int,
            2 * (old(self).n() + 1) <= usize::MAX as int,
            old(self).positives@.len() == old(self).n() + 1,
            forall|w: int|
                0 <= w < old(self).positives@.len() ==> (#[trigger] old(self).positives@[w]) == 0,
            old(self).negatives@.len() == old(self).n() + 1,
            forall|w: int|
                0 <= w < old(self).negatives@.len() ==> (#[trigger] old(self).negatives@[w]) == 0,
        ensures
            final(self).clauses == old(self).clauses,
            final(self).num_vars == old(self).num_vars,
            final(self).assignment == old(self).assignment,
            final(self).history == old(self).history,
            final(self).literal_polarity == old(self).literal_polarity,
            final(self).watches == old(self).watches,
            final(self).watch_lists == old(self).watch_lists,
            final(self).positives@.len() == final(self).n() + 1,
            final(self).negatives@.len() == final(self).n() + 1,
            forall|w: int|
                1 <= w <= final(self).n() ==> (#[trigger] final(self).positives@[w]) as int
                    == cnt_lit(final(self).cs(), w),
            forall|w: int|
                1 <= w <= final(self).n() ==> (#[trigger] final(self).negatives@[w]) as int
                    == cnt_lit(final(self).cs(), -w),
    {
        // Count each variable's positive and negative occurrences over the
        // surviving clauses.
        let ghost wb = *self;
        let ghost fcs = self.cs();
        let mut ci: usize = 0;
        while ci < self.clauses.len()
            invariant
                ci <= self.clauses@.len(),
                self.clauses == wb.clauses,
                self.num_vars == wb.num_vars,
                self.assignment == wb.assignment,
                self.history == wb.history,
                self.literal_polarity == wb.literal_polarity,
                self.watches == wb.watches,
                self.watch_lists == wb.watch_lists,
                self.cs() == fcs,
                self.positives@.len() == self.n() + 1,
                self.negatives@.len() == self.n() + 1,
                forall|w: int|
                    1 <= w <= self.n() ==> (#[trigger] self.positives@[w]) as int == cnt_lit(
                        fcs.take(ci as int),
                        w,
                    ),
                forall|w: int|
                    1 <= w <= self.n() ==> (#[trigger] self.negatives@[w]) as int == cnt_lit(
                        fcs.take(ci as int),
                        -w,
                    ),
                self.positives@[0] == 0,
                self.negatives@[0] == 0,
            decreases self.clauses@.len() - ci,
        {
            let ghost c = fcs[ci as int];
            let c_len: usize = self.clauses[ci].len();
            let mut li: usize = 0;
            while li < c_len
                invariant
                    li <= c_len,
                    ci < self.clauses@.len(),
                    c == fcs[ci as int],
                    c_len == c.len(),
                    self.clauses == wb.clauses,
                    self.num_vars == wb.num_vars,
                    self.assignment == wb.assignment,
                    self.history == wb.history,
                    self.literal_polarity == wb.literal_polarity,
                    self.watches == wb.watches,
                    self.watch_lists == wb.watch_lists,
                    self.cs() == fcs,
                    self.positives@.len() == self.n() + 1,
                    self.negatives@.len() == self.n() + 1,
                    forall|w: int|
                        1 <= w <= self.n() ==> (#[trigger] self.positives@[w]) as int == cnt_lit(
                            fcs.take(ci as int),
                            w,
                        ) + cnt_in(c.take(li as int), w),
                    forall|w: int|
                        1 <= w <= self.n() ==> (#[trigger] self.negatives@[w]) as int == cnt_lit(
                            fcs.take(ci as int),
                            -w,
                        ) + cnt_in(c.take(li as int), -w),
                    self.positives@[0] == 0,
                    self.negatives@[0] == 0,
                decreases c_len - li,
            {
                let l: i32 = self.clauses[ci][li];
                assert(c[li as int] == l);
                assert(lit_ok(l as int, self.n()));
                let var: usize = if l > 0 {
                    l as usize
                } else {
                    (-l) as usize
                };
                proof {
                    lemma_cnt_pair_le_total(fcs.take(ci as int), var as int);
                    lemma_cnt_lit_nonneg(fcs.take(ci as int), var as int);
                    lemma_cnt_lit_nonneg(fcs.take(ci as int), -(var as int));
                    lemma_cnt_in_le_len(c.take(li as int), var as int);
                    lemma_cnt_in_nonneg(c.take(li as int), var as int);
                    lemma_cnt_in_le_len(c.take(li as int), -(var as int));
                    lemma_cnt_in_nonneg(c.take(li as int), -(var as int));
                    lemma_take_push(fcs, ci as int);
                    lemma_cnt_lit_push(fcs.take(ci as int), c, 0);
                    lemma_total_lits_take_le(fcs, ci as int + 1);
                }
                if l > 0 {
                    let p: usize = self.positives[var];
                    self.positives.set(var, p + 1);
                } else {
                    let p: usize = self.negatives[var];
                    self.negatives.set(var, p + 1);
                }
                li = li + 1;
                proof {
                    lemma_take_push(c, li as int - 1);
                    assert forall|w: int| 1 <= w <= self.n() implies (
                    #[trigger] self.positives@[w]) as int == cnt_lit(fcs.take(ci as int), w)
                        + cnt_in(c.take(li as int), w) by {
                        lemma_cnt_in_push(c.take(li as int - 1), c[li as int - 1], w);
                    }
                    assert forall|w: int| 1 <= w <= self.n() implies (
                    #[trigger] self.negatives@[w]) as int == cnt_lit(fcs.take(ci as int), -w)
                        + cnt_in(c.take(li as int), -w) by {
                        lemma_cnt_in_push(c.take(li as int - 1), c[li as int - 1], -w);
                    }
                }
            }
            ci = ci + 1;
            proof {
                lemma_take_push(fcs, ci as int - 1);
                assert(c.take(c.len() as int) =~= c);
                assert forall|w: int| 1 <= w <= self.n() implies (
                #[trigger] self.positives@[w]) as int == cnt_lit(fcs.take(ci as int), w) by {
                    lemma_cnt_lit_push(fcs.take(ci as int - 1), c, w);
                }
                assert forall|w: int| 1 <= w <= self.n() implies (
                #[trigger] self.negatives@[w]) as int == cnt_lit(fcs.take(ci as int), -w) by {
                    lemma_cnt_lit_push(fcs.take(ci as int - 1), c, -w);
                }
            }
        }
        proof {
            assert(fcs.take(fcs.len() as int) =~= fcs);
        }

        proof {
            assert(fcs.take(fcs.len() as int) =~= fcs);
        }
    }

    /// Classifies each variable pure positive, pure negative, or mixed,
    /// from the static occurrence counts.
    #[verifier::loop_isolation(false)]
    fn classify_polarity(&mut self)
        requires
            2 * (old(self).n() + 1) <= usize::MAX as int,
            old(self).positives@.len() == old(self).n() + 1,
            old(self).negatives@.len() == old(self).n() + 1,
            old(self).literal_polarity@.len() == old(self).n() + 1,
            forall|w: int|
                0 <= w < old(self).literal_polarity@.len() ==> (
                #[trigger] old(self).literal_polarity@[w]) == 0,
            forall|w: int|
                1 <= w <= old(self).n() ==> (#[trigger] old(self).positives@[w]) as int == cnt_lit(
                    old(self).cs(),
                    w,
                ),
            forall|w: int|
                1 <= w <= old(self).n() ==> (#[trigger] old(self).negatives@[w]) as int == cnt_lit(
                    old(self).cs(),
                    -w,
                ),
        ensures
            final(self).clauses == old(self).clauses,
            final(self).num_vars == old(self).num_vars,
            final(self).assignment == old(self).assignment,
            final(self).history == old(self).history,
            final(self).positives == old(self).positives,
            final(self).negatives == old(self).negatives,
            final(self).watches == old(self).watches,
            final(self).watch_lists == old(self).watch_lists,
            final(self).literal_polarity@.len() == final(self).n() + 1,
            forall|w: int|
                1 <= w <= final(self).n() ==> (#[trigger] final(self).literal_polarity@[w]) as int
                    == pol_spec(final(self).cs(), w),
    {
        let ghost fcs = self.cs();
        // Classify each variable pure positive, pure negative, or mixed.
        let ghost cnted = *self;
        let mut v: usize = 1;
        while v <= self.num_vars
            invariant
                1 <= v as int <= self.n() + 1,
                self.clauses == cnted.clauses,
                self.num_vars == cnted.num_vars,
                self.assignment == cnted.assignment,
                self.history == cnted.history,
                self.positives == cnted.positives,
                self.negatives == cnted.negatives,
                self.watches == cnted.watches,
                self.watch_lists == cnted.watch_lists,
                self.cs() == fcs,
                self.literal_polarity@.len() == self.n() + 1,
                forall|w: int|
                    1 <= w < v as int ==> (#[trigger] self.literal_polarity@[w]) as int == pol_spec(
                        fcs,
                        w,
                    ),
                forall|w: int|
                    v as int <= w <= self.n() ==> (#[trigger] self.literal_polarity@[w]) == 0,
            decreases self.n() + 1 - v,
        {
            if self.positives[v] > 0 && self.negatives[v] == 0 {
                self.literal_polarity.set(v, 1i8);
            } else if self.negatives[v] > 0 && self.positives[v] == 0 {
                self.literal_polarity.set(v, -1i8);
            }
            v = v + 1;
        }
    }

    /// Runs once at construction: drops tautological clauses, sorts the
    /// survivors ascending by length, builds the initial watch structure,
    /// and counts each variable's positive and negative occurrences.
    /// An empty clause is kept and later forces a conflict.
    #[verifier::rlimit(80)]
    pub fn preprocess(&mut self)
        requires
            old(self).pristine(),
        ensures
            final(self).wf(),
            final(self).num_vars == old(self).num_vars,
            final(self).assignment == old(self).assignment,
            final(self).history == old(self).history,
            forall|a: int, b: int|
                0 <= a <= b < final(self).cs().len() ==> (#[trigger] final(self).cs()[a]).len()
                    <= (#[trigger] final(self).cs()[b]).len(),
            forall|m: int|
                0 <= m < final(self).cs().len() ==> !is_taut(#[trigger] final(self).cs()[m]),
            each_in(final(self).cs(), old(self).cs()),
            covers_non_taut(final(self).cs(), old(self).cs()),
            final(self).cs() == sort_by_len(non_taut(old(self).cs())),
            final(self).watches@.len() == final(self).clauses@.len(),
            forall|k: int|
                0 <= k < final(self).watches@.len() ==> (#[trigger] final(self).watches@[k]) == (
                0usize,
                1usize,
            ),
            forall|p: int|
                0 <= p < final(self).watch_lists@.len() ==> (#[trigger] final(self).watch_lists@[p])@
                    == init_lists(final(self).cs(), p),
    {
        let ghost cs0 = self.cs();
        let kept = self.drop_tautologies();
        self.clauses = kept;
        let ghost filtered = self.cs();
        self.sort_clauses();
        let ghost sorted = self.cs();
        self.build_watches();
        self.count_occurrences();
        self.classify_polarity();
        proof {
            assert(filtered == view_cs(kept));
            lemma_each_in_trans(self.cs(), filtered, cs0);
            lemma_covers_trans(self.cs(), filtered, cs0);
        }
    }

    /// Builds a solver for `clauses` over variables `1..=num_vars` and
    /// preprocesses the clause set.  A total assignment satisfies the
    /// stored clause set exactly when it satisfies the given one.
    pub fn new(clauses: Vec<Vec<i32>>, num_vars: usize) -> (s: Solver)
        requires
            all_lits_ok(view_cs(clauses), num_vars as int),
            total_lits(view_cs(clauses)) <= usize::MAX as int,
            num_vars as int <= i32::MAX as int,
            2 * (num_vars as int + 1) <= usize::MAX as int,
        ensures
            s.wf(),
            s.num_vars == num_vars,
            s.history@.len() == 0,
            forall|w: int| 0 <= w < s.assignment@.len() ==> (#[trigger] s.assignment@[w]) is None,
            forall|a: int, b: int|
                0 <= a <= b < s.cs().len() ==> (#[trigger] s.cs()[a]).len() <= (
                #[trigger] s.cs()[b]).len(),
            s.cs() == sort_by_len(non_taut(view_cs(clauses))),
            forall|m: int| 0 <= m < s.cs().len() ==> !is_taut(#[trigger] s.cs()[m]),
            s.watches@.len() == s.clauses@.len(),
            forall|k: int|
                0 <= k < s.watches@.len() ==> (#[trigger] s.watches@[k]) == (0usize, 1usize),
            forall|p: int|
                0 <= p < s.watch_lists@.len() ==> (#[trigger] s.watch_lists@[p])@ == init_lists(
                    s.cs(),
                    p,
                ),
            forall|sigma: Seq<bool>|
                sigma.len() == num_vars as int + 1 ==> (full_sat(sigma, s.cs()) <==> full_sat(
                    sigma,
                    view_cs(clauses),
                )),
    {
        let ghost in_cs = view_cs(clauses);
        let mut solver = Solver {
            clauses,
            num_vars,
            assignment: filled(None, num_vars + 1),
            history: Vec::with_capacity(num_vars + 1),
            positives: filled(0usize, num_vars + 1),
            negatives: filled(0usize, num_vars + 1),
            literal_polarity: filled(0i8, num_vars + 1),
            watches: Vec::new(),
            watch_lists: empty_lists(2 * (num_vars + 1)),
        };
        solver.preprocess();
        proof {
            assert forall|sigma: Seq<bool>| sigma.len() == num_vars as int + 1 implies (full_sat(
                sigma,
                solver.cs(),
            ) <==> full_sat(sigma, in_cs)) by {
                if full_sat(sigma, solver.cs()) {
                    lemma_sat_of_kept(sigma, solver.cs(), in_cs, num_vars as int);
                }
                if full_sat(sigma, in_cs) {
                    lemma_sat_of_all(sigma, solver.cs(), in_cs);
                }
            }
        }
        solver
    }

    /// The watch-list slot a literal is filed under.
    pub open spec fn lit_index_spec(l: int) -> int {
        if l > 0 {
            2 * l
        } else {
            2 * (-l) + 1
        }
    }

    /// Encodes a (variable, sign) pair as a watch-list index.
    pub fn lit_index(&self, lit: i32) -> (r: usize)
        requires
            lit_ok(lit as int, self.n()),
            self.n() <= i32::MAX as int,
            2 * (self.n() + 1) <= usize::MAX as int,
        ensures
            r as int == Self::lit_index_spec(lit as int),
            r < 2 * (self.n() + 1),
    {
        if lit > 0 {
            (lit as usize) * 2
        } else {
            ((-lit) as usize) * 2 + 1
        }
    }

    /// The tri-state value of a literal under the current assignment.
    pub fn val(&self, lit: i32) -> (r: Option<bool>)
        requires
            self.wf(),
            lit_ok(lit as int, self.n()),
        ensures
            r == lit_val(self.assignment@, lit as int),
    {
        let var_idx: usize = if lit > 0 {
            lit as usize
        } else {
            (-lit) as usize
        };
        match self.assignment[var_idx] {
            Some(v) => {
                if lit > 0 {
                    Some(v)
                } else {
                    Some(!v)
                }
            },
            None => None,
        }
    }

    /// Makes a literal true and records it on the trail; a no-op when its
    /// variable already has a value (of either sign).
    pub fn assign_lit(&mut self, lit: i32)
        requires
            old(self).wf(),
            lit_ok(lit as int, old(self).n()),
        ensures
            final(self).wf(),
            final(self).same_problem(*old(self)),
            final(self).watches == old(self).watches,
            final(self).watch_lists == old(self).watch_lists,
            lit_val(old(self).assignment@, lit as int) is Some ==> *final(self) == *old(self),
            lit_val(old(self).assignment@, lit as int) is None ==> final(self).assignment@
                == old(self).assignment@.update(lit_var(lit as int), Some(lit_pol(lit as int)))
                && final(self).history@ == old(self).history@.push(lit),
    {
        let var_idx: usize = if lit > 0 {
            lit as usize
        } else {
            (-lit) as usize
        };
        if self.assignment[var_idx].is_none() {
            let val: bool = lit > 0;
            self.assignment.set(var_idx, Some(val));
            self.history.push(lit);
            proof {
                let n = self.n();
                let h = self.history@;
                let h0 = old(self).history@;
                assert forall|i: int, j: int|
                    0 <= i < j < h.len() implies lit_var(#[trigger] h[i] as int) != lit_var(
                    #[trigger] h[j] as int,
                ) by {
                    if j == h.len() - 1 {
                        assert(old(self).assignment@[lit_var(h0[i] as int)] == Some(
                            lit_pol(h0[i] as int),
                        ));
                    }
                }
                assert forall|v: int|
                    1 <= v <= n && (#[trigger] self.assignment@[v]) is Some implies exists|i: int|
                    0 <= i < h.len() && lit_var(#[trigger] h[i] as int) == v by {
                    if v == var_idx as int {
                        assert(lit_var(h[h.len() - 1] as int) == v);
                    } else {
                        let i = choose|i: int|
                            0 <= i < h0.len() && lit_var(#[trigger] h0[i] as int) == v;
                        assert(lit_var(h[i] as int) == v);
                    }
                }
            }
        }
    }

    /// Makes a literal true when its variable is free and moves the watch
    /// of every clause watching the literal's negation, when a replacement
    /// slot can be found.  Returns false only when the literal is already
    /// false; the watch moves have no bearing on the verdict.
    #[verifier::loop_isolation(false)]
    pub fn propagate(&mut self, lit: i32) -> (r: bool)
        requires
            old(self).wf(),
            lit_ok(lit as int, old(self).n()),
        ensures
            final(self).wf(),
            final(self).same_problem(*old(self)),
            lit_val(old(self).assignment@, lit as int) is Some ==> *final(self) == *old(self),
            lit_val(old(self).assignment@, lit as int) == Some(true) ==> r,
            lit_val(old(self).assignment@, lit as int) == Some(false) ==> !r,
            lit_val(old(self).assignment@, lit as int) is None ==> r && final(self).assignment@
                == old(self).assignment@.update(lit_var(lit as int), Some(lit_pol(lit as int)))
                && final(self).history@ == old(self).history@.push(lit),
    {
        if let Some(val) = self.val(lit) {
            return val;
        }
        self.assign_lit(lit);
        let neg_lit: i32 = -lit;
        let neg_idx: usize = self.lit_index(neg_lit);

        let mut i: usize = 0;
        while i < self.watch_lists[neg_idx].len()
            invariant
                self.wf(),
                self.same_problem(*old(self)),
                self.assignment@ == old(self).assignment@.update(
                    lit_var(lit as int),
                    Some(lit_pol(lit as int)),
                ),
                self.history@ == old(self).history@.push(lit),
                neg_idx < self.watch_lists@.len(),
            decreases self.watch_lists@[neg_idx as int]@.len() - i,
        {
            let clause_idx: usize = self.watch_lists[neg_idx][i];
            let clause_len: usize = self.clauses[clause_idx].len();
            if clause_len < 2 {
                // A clause this short has no third literal to move a watch
                // to; its degenerate watch pair stays as built.
                i = i + 1;
                continue ;
            }
            let pair: (usize, usize) = self.watches[clause_idx];
            let first: usize = pair.0;
            let second: usize = pair.1;

            let cur_oth: (usize, usize) = if self.clauses[clause_idx][first] == neg_lit {
                (first, second)
            } else {
                (second, first)
            };
            let current: usize = cur_oth.0;
            let other: usize = cur_oth.1;

            let other_lit: i32 = self.clauses[clause_idx][other];
            assert(lit_ok(other_lit as int, self.n())) by {
                assert(self.cs()[clause_idx as int][other as int] == other_lit);
            }
            let mut skip: bool = false;
            if let Some(true) = self.val(other_lit) {
                skip = true;
            }
            if skip {
                i = i + 1;
                continue ;
            }
            let ghost old_wl_len: int = self.watch_lists@[neg_idx as int]@.len() as int;
            let mut found_new_watch: bool = false;
            let mut j: usize = 2;
            while j < clause_len && !found_new_watch
                invariant
                    self.wf(),
                    self.same_problem(*old(self)),
                    self.assignment@ == old(self).assignment@.update(
                        lit_var(lit as int),
                        Some(lit_pol(lit as int)),
                    ),
                    self.history@ == old(self).history@.push(lit),
                    neg_idx < self.watch_lists@.len(),
                    clause_idx < self.clauses@.len(),
                    clause_len == self.clauses@[clause_idx as int]@.len(),
                    2 <= clause_len,
                    first < clause_len,
                    second < clause_len,
                    !found_new_watch ==> i < self.watch_lists@[neg_idx as int]@.len(),
                    found_new_watch ==> self.watch_lists@[neg_idx as int]@.len() == old_wl_len
                        - 1,
                    !found_new_watch ==> self.watch_lists@[neg_idx as int]@.len() == old_wl_len,
                decreases clause_len - j,
            {
                if j == current || j == other {
                    j = j + 1;
                    continue ;
                }
                let lj: i32 = self.clauses[clause_idx][j];
                assert(lit_ok(lj as int, self.n())) by {
                    assert(self.cs()[clause_idx as int][j as int] == lj);
                }
                let vj = self.val(lj);
                let vj_false: bool = match vj {
                    Some(b) => !b,
                    None => false,
                };
                if !vj_false {
                    let new_idx: usize = self.lit_index(lj);
                    if current == first {
                        self.watches.set(clause_idx, (j, second));
                    } else {
                        self.watches.set(clause_idx, (first, j));
                    }
                    let _moved: usize = self.watch_lists[neg_idx].swap_remove(i);
                    self.watch_lists[new_idx].push(clause_idx);
                    found_new_watch = true;
                }
                j = j + 1;
            }
            if !found_new_watch {
                i = i + 1;
            }
        }
        true
    }

    /// Picks the unassigned variable with the highest static occurrence
    /// count (positive plus negative), lowest id breaking ties; 0 when
    /// every unassigned variable is without occurrences.
    #[verifier::loop_isolation(false)]
    pub fn pick_variable_two(&self) -> (r: Option<usize>)
        requires
            self.wf(),
        ensures
            r matches Some(b) ==> 1 <= b as int <= self.n() && self.assignment@[b as int] is None
                && self.positives@[b as int] + self.negatives@[b as int] > 0,
            r matches Some(b) ==> forall|v: int|
                1 <= v <= self.n() && (#[trigger] self.assignment@[v]) is None ==> self.positives@[v]
                    + self.negatives@[v] <= self.positives@[b as int] + self.negatives@[b as int],
            r matches Some(b) ==> forall|v: int|
                1 <= v < b as int && (#[trigger] self.assignment@[v]) is None ==> self.positives@[v]
                    + self.negatives@[v] < self.positives@[b as int] + self.negatives@[b as int],
            r is None ==> forall|v: int|
                1 <= v <= self.n() && (#[trigger] self.assignment@[v]) is None ==> self.positives@[v]
                    + self.negatives@[v] == 0,
    {
        let mut best_var: usize = 0;
        let mut best_score: usize = 0;

        let mut v: usize = 1;
        while v <= self.num_vars
            invariant
                1 <= v as int <= self.n() + 1,
                best_var == 0 ==> best_score == 0,
                best_var != 0 ==> 1 <= best_var as int && (best_var as int) < v as int
                    && self.assignment@[best_var as int] is None && best_score == self.positives@[best_var as int]
                    + self.negatives@[best_var as int] && best_score > 0,
                forall|w: int|
                    1 <= w < v as int && (#[trigger] self.assignment@[w]) is None ==> self.positives@[w]
                        + self.negatives@[w] <= best_score,
                forall|w: int|
                    1 <= w < best_var as int && (#[trigger] self.assignment@[w]) is None
                        ==> self.positives@[w] + self.negatives@[w] < best_score,
            decreases self.n() + 1 - v,
        {
            if self.assignment[v].is_none() {
                proof {
                    lemma_cnt_pair_le_total(self.cs(), v as int);
                }
                let score: usize = self.positives[v] + self.negatives[v];
                if score > best_score {
                    best_score = score;
                    best_var = v;
                }
            }
            v = v + 1;
        }

        if best_var == 0 {
            None
        } else {
            Some(best_var)
        }
    }

    /// Picks the unassigned variable appearing in the most clauses that
    /// still have no true literal, lowest id breaking ties; 0 when no
    /// unassigned variable appears in such a clause — then every clause is
    /// satisfied or fully assigned.
    #[verifier::loop_isolation(false)]
    pub fn pick_variable(&self) -> (r: Option<usize>)
        requires
            self.wf(),
        ensures
            r matches Some(b) ==> 1 <= b as int <= self.n() && self.assignment@[b as int] is None
                && var_score(self.assignment@, self.cs(), b as int) > 0,
            r matches Some(b) ==> forall|v: int|
                1 <= v <= self.n() && (#[trigger] self.assignment@[v]) is None ==> var_score(
                    self.assignment@,
                    self.cs(),
                    v,
                ) <= var_score(self.assignment@, self.cs(), b as int),
            r matches Some(b) ==> forall|v: int|
                1 <= v < b as int && (#[trigger] self.assignment@[v]) is None ==> var_score(
                    self.assignment@,
                    self.cs(),
                    v,
                ) < var_score(self.assignment@, self.cs(), b as int),
            r is None ==> forall|k: int|
                0 <= k < self.cs().len() ==> clause_has_true(
                    self.assignment@,
                    #[trigger] self.cs()[k],
                ) || (forall|i: int|
                    0 <= i < self.cs()[k].len() ==> lit_val(
                        self.assignment@,
                        #[trigger] self.cs()[k][i] as int,
                    ) is Some),
    {
        let ghost asn = self.assignment@;
        let ghost cs = self.cs();

        let mut scores: Vec<usize> = filled(0usize, self.num_vars + 1);
        let mut clause_idx: usize = 0;
        while clause_idx < self.clauses.len()
            invariant
                clause_idx <= self.clauses@.len(),
                scores@.len() == self.n() + 1,
                forall|w: int|
                    1 <= w <= self.n() ==> (#[trigger] scores@[w]) as int == var_score(
                        asn,
                        cs.take(clause_idx as int),
                        w,
                    ),
                forall|w: int|
                    1 <= w <= self.n() ==> (#[trigger] scores@[w]) as int <= total_lits(
                        cs.take(clause_idx as int),
                    ),
            decreases self.clauses@.len() - clause_idx,
        {
            let ghost c = cs[clause_idx as int];
            let clause_len: usize = self.clauses[clause_idx].len();

            let mut satisfied: bool = false;
            let mut t: usize = 0;
            while t < clause_len && !satisfied
                invariant
                    t <= clause_len,
                    satisfied ==> clause_has_true(asn, c),
                    !satisfied ==> forall|q: int|
                        0 <= q < t ==> lit_val(asn, #[trigger] c[q] as int) != Some(true),
                decreases clause_len - t,
            {
                let l: i32 = self.clauses[clause_idx][t];
                assert(c[t as int] == l);
                if let Some(true) = self.val(l) {
                    satisfied = true;
                }
                t = t + 1;
            }

            if !satisfied {
                assert(!clause_has_true(asn, c));
                let mut li: usize = 0;
                while li < clause_len
                    invariant
                        li <= clause_len,
                        !clause_has_true(asn, c),
                        scores@.len() == self.n() + 1,
                        forall|w: int|
                            1 <= w <= self.n() ==> (#[trigger] scores@[w]) as int == var_score(
                                asn,
                                cs.take(clause_idx as int),
                                w,
                            ) + var_positions_upto(asn, c, w, li as int),
                        forall|w: int|
                            1 <= w <= self.n() ==> (#[trigger] scores@[w]) as int <= total_lits(
                                cs.take(clause_idx as int),
                            ) + li,
                    decreases clause_len - li,
                {
                    let l: i32 = self.clauses[clause_idx][li];
                    assert(c[li as int] == l);
                    assert(lit_ok(l as int, self.n()));
                    let var: usize = if l > 0 {
                        l as usize
                    } else {
                        (-l) as usize
                    };
                    if self.assignment[var].is_none() {
                        proof {
                            lemma_take_push(cs, clause_idx as int);
                            lemma_cnt_lit_push(cs.take(clause_idx as int), c, 0);
                            lemma_total_lits_take_le(cs, clause_idx as int + 1);
                        }
                        let s: usize = scores[var];
                        scores.set(var, s + 1);
                    }
                    li = li + 1;
                }
            }

            clause_idx = clause_idx + 1;
            proof {
                lemma_take_push(cs, clause_idx as int - 1);
                lemma_cnt_lit_push(cs.take(clause_idx as int - 1), c, 0);
                assert forall|w: int| 1 <= w <= self.n() implies (#[trigger] scores@[w]) as int
                    == var_score(asn, cs.take(clause_idx as int), w) by {
                    lemma_var_score_push(asn, cs.take(clause_idx as int - 1), c, w);
                    if satisfied {
                        assert(clause_score(asn, c, w) == 0);
                    }
                }
                assert forall|w: int| 1 <= w <= self.n() implies (#[trigger] scores@[w]) as int
                    <= total_lits(cs.take(clause_idx as int)) by {
                    lemma_var_positions_nonneg(asn, c, w, c.len() as int);
                }
            }
        }
        proof {
            assert(cs.take(self.clauses@.len() as int) =~= cs);
        }

        let mut best_var: usize = 0;
        let mut best_score: usize = 0;

        let mut v: usize = 1;
        while v <= self.num_vars
            invariant
                1 <= v as int <= self.n() + 1,
                scores@.len() == self.n() + 1,
                forall|w: int|
                    1 <= w <= self.n() ==> (#[trigger] scores@[w]) as int == var_score(asn, cs, w),
                best_var == 0 ==> best_score == 0,
                best_var != 0 ==> 1 <= best_var as int && (best_var as int) < v as int
                    && asn[best_var as int] is None
                    && best_score == scores@[best_var as int] && best_score > 0,
                forall|w: int|
                    1 <= w < v as int && (#[trigger] asn[w]) is None ==> scores@[w] <= best_score,
                forall|w: int|
                    1 <= w < best_var as int && (#[trigger] asn[w]) is None ==> scores@[w]
                        < best_score,
            decreases self.n() + 1 - v,
        {
            if self.assignment[v].is_none() {
                let sv: usize = scores[v];
                if sv > best_score {
                    best_score = sv;
                    best_var = v;
                }
            }
            v = v + 1;
        }

        proof {
            if best_var == 0 {
                assert forall|k: int|
                    0 <= k < cs.len() implies clause_has_true(asn, #[trigger] cs[k]) || (forall|
                    i: int,
                |
                    0 <= i < cs[k].len() ==> lit_val(asn, #[trigger] cs[k][i] as int) is Some) by {
                    if !clause_has_true(asn, cs[k]) {
                        assert forall|i: int| 0 <= i < cs[k].len() implies lit_val(
                            asn,
                            #[trigger] cs[k][i] as int,
                        ) is Some by {
                            if lit_val(asn, cs[k][i] as int) is None {
                                let w = lit_var(cs[k][i] as int);
                                assert(lit_ok(cs[k][i] as int, self.n()));
                                assert(asn[w] is None);
                                lemma_var_score_lower(asn, cs, k, w);
                                lemma_var_positions_pos(asn, cs[k], w, i, cs[k].len() as int);
                                assert(var_score(asn, cs, w) >= 1);
                                assert(scores@[w] == 0);
                                assert(false);
                            }
                        }
                    }
                }
            }
        }

        if best_var == 0 {
            None
        } else {
            Some(best_var)
        }
    }

    /// Boolean constraint propagation: repeatedly scans every clause,
    /// forcing the literal of each unit clause, until a full pass changes
    /// nothing (fixpoint, returns true) or some clause has every literal
    /// false (conflict, returns false; assignments made so far stay on the
    /// trail for the caller to roll back).
    ///
    /// On success every clause has a true literal or at least two
    /// unassigned ones, and every satisfying total assignment compatible
    /// with the entry assignment is compatible with the extended one.
    /// On conflict no satisfying total assignment is compatible with the
    /// entry assignment.
    #[verifier::loop_isolation(false)]
    #[verifier::rlimit(80)]
    pub fn bcp(&mut self) -> (r: bool)
        requires
            old(self).wf(),
        ensures
            final(self).wf(),
            final(self).same_problem(*old(self)),
            old(self).history@.is_prefix_of(final(self).history@),
            asn_extends(final(self).assignment@, old(self).assignment@),
            forall|sigma: Seq<bool>|
                sigma.len() == old(self).n() + 1 && total_compat(sigma, old(self).assignment@)
                    && full_sat(sigma, old(self).cs()) ==> total_compat(
                    sigma,
                    final(self).assignment@,
                ),
            r ==> forall|k: int|
                0 <= k < final(self).cs().len() ==> clause_has_true(
                    final(self).assignment@,
                    #[trigger] final(self).cs()[k],
                ) || clause_two_unassigned(final(self).assignment@, final(self).cs()[k]),
            !r ==> forall|sigma: Seq<bool>|
                sigma.len() == old(self).n() + 1 && total_compat(sigma, old(self).assignment@)
                    ==> !full_sat(sigma, old(self).cs()),
            !r ==> exists|k: int|
                0 <= k < final(self).cs().len() && clause_all_false(
                    final(self).assignment@,
                    #[trigger] final(self).cs()[k],
                ),
    {
        let mut changed: bool = true;

        while changed
            invariant
                self.wf(),
                self.same_problem(*old(self)),
                old(self).history@.is_prefix_of(self.history@),
                asn_extends(self.assignment@, old(self).assignment@),
                forall|sigma: Seq<bool>|
                    sigma.len() == old(self).n() + 1 && total_compat(
                        sigma,
                        old(self).assignment@,
                    ) && full_sat(sigma, old(self).cs()) ==> total_compat(sigma, self.assignment@),
                !changed ==> forall|k: int|
                    0 <= k < self.cs().len() ==> clause_has_true(
                        self.assignment@,
                        #[trigger] self.cs()[k],
                    ) || clause_two_unassigned(self.assignment@, self.cs()[k]),
            decreases num_unassigned(self.assignment@) + if changed {
                1int
            } else {
                0int
            },
        {
            changed = false;
            let ghost pass_asn = self.assignment@;
            proof {
                lemma_num_unassigned_nonneg(pass_asn);
            }

            let mut clause_idx: usize = 0;
            while clause_idx < self.clauses.len()
                invariant
                    self.wf(),
                    self.same_problem(*old(self)),
                    old(self).history@.is_prefix_of(self.history@),
                    asn_extends(self.assignment@, old(self).assignment@),
                    forall|sigma: Seq<bool>|
                        sigma.len() == old(self).n() + 1 && total_compat(
                            sigma,
                            old(self).assignment@,
                        ) && full_sat(sigma, old(self).cs()) ==> total_compat(
                            sigma,
                            self.assignment@,
                        ),
                    clause_idx <= self.clauses@.len(),
                    asn_extends(self.assignment@, pass_asn),
                    changed ==> num_unassigned(self.assignment@) < num_unassigned(pass_asn),
                    !changed ==> self.assignment@ == pass_asn,
                    !changed ==> forall|k: int|
                        0 <= k < clause_idx ==> clause_has_true(
                            self.assignment@,
                            #[trigger] self.cs()[k],
                        ) || clause_two_unassigned(self.assignment@, self.cs()[k]),
                decreases self.clauses@.len() - clause_idx,
            {
                let ghost c = self.cs()[clause_idx as int];
                let clause_len: usize = self.clauses[clause_idx].len();

                let mut unassigned_count: i32 = 0;
                let mut last_unassigned: i32 = 0;
                let ghost mut found_true: bool = false;

                let mut pos: usize = 0;
                while pos < clause_len && unassigned_count < 2
                    invariant
                        0 <= unassigned_count <= 2,
                        pos <= clause_len,
                        clause_idx < self.clauses@.len(),
                        c == self.cs()[clause_idx as int],
                        clause_len == c.len(),
                        found_true ==> clause_has_true(self.assignment@, c),
                        unassigned_count == 2 ==> found_true || clause_two_unassigned(
                            self.assignment@,
                            c,
                        ),
                        unassigned_count == 0 ==> !found_true && forall|q: int|
                            0 <= q < pos ==> lit_val(self.assignment@, #[trigger] c[q] as int)
                                == Some(false),
                        unassigned_count == 1 ==> !found_true && exists|p: int|
                            0 <= p < pos && lit_val(self.assignment@, #[trigger] c[p] as int)
                                is None && c[p] == last_unassigned && forall|q: int|
                                0 <= q < pos && q != p ==> lit_val(
                                    self.assignment@,
                                    #[trigger] c[q] as int,
                                ) == Some(false),
                    decreases clause_len - pos,
                {
                    let l: i32 = self.clauses[clause_idx][pos];
                    assert(c[pos as int] == l);
                    let v = self.val(l);
                    match v {
                        Some(true) => {
                            unassigned_count = 2;
                            proof {
                                found_true = true;
                            }
                        },
                        Some(false) => {},
                        None => {
                            unassigned_count = unassigned_count + 1;
                            last_unassigned = l;
                        },
                    }
                    pos = pos + 1;
                }

                if unassigned_count == 0 {
                    proof {
                        assert(clause_all_false(self.assignment@, c));
                        assert forall|sigma: Seq<bool>|
                            sigma.len() == old(self).n() + 1 && total_compat(
                                sigma,
                                old(self).assignment@,
                            ) implies !full_sat(sigma, old(self).cs()) by {
                            if full_sat(sigma, old(self).cs()) {
                                assert(total_compat(sigma, self.assignment@));
                                lemma_conflict(sigma, self.assignment@, c, self.n());
                                assert(full_clause_sat(sigma, old(self).cs()[clause_idx as int]));
                            }
                        }
                    }
                    return false;
                }

                if unassigned_count == 1 {
                    let lu_val = self.val(last_unassigned);
                    proof {
                        let p = choose|p: int|
                            0 <= p < c.len() && lit_val(self.assignment@, #[trigger] c[p] as int)
                                is None && c[p] == last_unassigned && forall|q: int|
                                0 <= q < c.len() && q != p ==> lit_val(
                                    self.assignment@,
                                    #[trigger] c[q] as int,
                                ) == Some(false);
                        assert(lit_ok(last_unassigned as int, self.n()));
                    }
                    if lu_val.is_none() {
                        let ghost before = *self;
                        if !self.propagate(last_unassigned) {
                            return false;
                        }
                        changed = true;
                        proof {
                            let l = last_unassigned as int;
                            let upd = before.assignment@.update(lit_var(l), Some(lit_pol(l)));
                            assert(self.assignment@ == upd);
                            lemma_num_unassigned_update(
                                before.assignment@,
                                lit_var(l),
                                lit_pol(l),
                            );
                            lemma_num_unassigned_extends(before.assignment@, pass_asn);
                            assert forall|sigma: Seq<bool>|
                                sigma.len() == old(self).n() + 1 && total_compat(
                                    sigma,
                                    old(self).assignment@,
                                ) && full_sat(sigma, old(self).cs()) implies total_compat(
                                sigma,
                                self.assignment@,
                            ) by {
                                assert(total_compat(sigma, before.assignment@));
                                assert(full_clause_sat(sigma, old(self).cs()[clause_idx as int]));
                                lemma_unit_forces(sigma, before.assignment@, c, l, self.n());
                            }
                        }
                    }
                }

                clause_idx = clause_idx + 1;
            }
            proof {
                lemma_num_unassigned_nonneg(self.assignment@);
            }
        }
        true
    }

    /// One node of the backtracking search.  The outermost call (empty
    /// trail) first forces every pure variable's preferred literal; every
    /// call then propagates to fixpoint, branches on the heuristic's
    /// variable, and rolls back on failure.
    ///
    /// Returns true exactly when some total extension of the entry
    /// assignment satisfies the clause set: on true, every total
    /// assignment compatible with the final partial assignment satisfies
    /// every clause (soundness); on false, the entry state is restored
    /// and no compatible total assignment satisfies the clause set
    /// (completeness).
    pub fn solve(&mut self) -> (r: bool)
        requires
            old(self).wf(),
        ensures
            final(self).wf(),
            final(self).same_problem(*old(self)),
            r ==> asn_extends(final(self).assignment@, old(self).assignment@) && old(
                self,
            ).history@.is_prefix_of(final(self).history@),
            r ==> forall|sigma: Seq<bool>|
                sigma.len() == old(self).n() + 1 && total_compat(sigma, final(self).assignment@)
                    ==> full_sat(sigma, old(self).cs()),
            !r ==> final(self).assignment@ == old(self).assignment@ && final(self).history@ == old(
                self,
            ).history@,
            !r ==> forall|sigma: Seq<bool>|
                sigma.len() == old(self).n() + 1 && total_compat(sigma, old(self).assignment@)
                    ==> !full_sat(sigma, old(self).cs()),
        decreases num_unassigned(old(self).assignment@),
    {
        let entry_snapshot: usize = self.history.len();

        if entry_snapshot == 0 {
            proof {
                assert forall|w: int|
                    0 <= w < self.assignment@.len() implies self.assignment@[w] is None by {
                    if 1 <= w <= self.n() && self.assignment@[w] is Some {
                        let i = choose|i: int|
                            0 <= i < self.history@.len() && lit_var(
                                #[trigger] self.history@[i] as int,
                            ) == w;
                        assert(false);
                    }
                }
            }
            let mut v: usize = 1;
            #[verifier::loop_isolation(false)]
            while v <= self.num_vars
                invariant
                    1 <= v as int <= self.n() + 1,
                    self.wf(),
                    self.same_problem(*old(self)),
                    self.watch_lists@.len() == old(self).watch_lists@.len(),
                    forall|w: int|
                        v as int <= w <= self.n() ==> (#[trigger] self.assignment@[w]) is None,
                    asn_extends(self.assignment@, old(self).assignment@),
                    old(self).history@.is_prefix_of(self.history@),
                    (exists|sigma: Seq<bool>|
                        sigma.len() == self.n() + 1 && full_sat(sigma, self.cs())) ==> (exists|
                        sigma: Seq<bool>,
                    |
                        sigma.len() == self.n() + 1 && total_compat(sigma, self.assignment@)
                            && full_sat(sigma, self.cs())),
                decreases self.n() + 1 - v,
            {
                let pol: i8 = self.literal_polarity[v];
                if self.assignment[v].is_none() && pol != 0 {
                    let lit: i32 = if pol > 0 {
                        v as i32
                    } else {
                        -(v as i32)
                    };
                    assert(lit_ok(lit as int, self.n()));
                    let ghost before = *self;
                    if !self.propagate(lit) {
                        self.backtrack(entry_snapshot);
                        return false;
                    }
                    self.assign_lit(lit);
                    proof {
                        let p = lit_pol(lit as int);
                        assert(lit_var(lit as int) == v as int);
                        assert(self.assignment@ == before.assignment@.update(v as int, Some(p)));
                        if exists|sigma: Seq<bool>|
                            sigma.len() == self.n() + 1 && full_sat(sigma, self.cs()) {
                            let sigma = choose|sigma: Seq<bool>|
                                sigma.len() == self.n() + 1 && total_compat(
                                    sigma,
                                    before.assignment@,
                                ) && full_sat(sigma, self.cs());
                            assert(before.literal_polarity@[v as int] as int == pol_spec(
                                self.cs(),
                                v as int,
                            ));
                            let sigma2 = sigma.update(v as int, p);
                            lemma_flip_pure(sigma, self.cs(), v as int, p, self.n());
                            assert(total_compat(sigma2, self.assignment@));
                        }
                    }
                }
                v = v + 1;
            }
        }
        let ghost s1 = *self;
        proof {
            assert forall|sigma: Seq<bool>|
                sigma.len() == old(self).n() + 1 && total_compat(sigma, old(self).assignment@)
                    && full_sat(sigma, old(self).cs()) implies exists|sigma2: Seq<bool>|
                sigma2.len() == old(self).n() + 1 && total_compat(sigma2, s1.assignment@)
                    && full_sat(sigma2, old(self).cs()) by {
                if entry_snapshot == 0 {
                } else {
                    assert(total_compat(sigma, s1.assignment@));
                }
            }
        }

        if !self.bcp() {
            self.backtrack(entry_snapshot);
            proof {
                assert(old(self).history@ =~= self.history@);
                lemma_asn_determined(
                    self.assignment@,
                    old(self).assignment@,
                    self.history@,
                    self.n(),
                );
                assert forall|sigma: Seq<bool>|
                    sigma.len() == old(self).n() + 1 && total_compat(
                        sigma,
                        old(self).assignment@,
                    ) implies !full_sat(sigma, old(self).cs()) by {
                    if full_sat(sigma, old(self).cs()) {
                        let sigma2 = choose|sigma2: Seq<bool>|
                            sigma2.len() == old(self).n() + 1 && total_compat(
                                sigma2,
                                s1.assignment@,
                            ) && full_sat(sigma2, old(self).cs());
                        assert(false);
                    }
                }
            }
            return false;
        }
        let ghost s2 = *self;

        let picked: Option<usize> = self.pick_variable();

        if picked.is_none() {
            proof {
                assert forall|sigma: Seq<bool>|
                    sigma.len() == old(self).n() + 1 && total_compat(
                        sigma,
                        self.assignment@,
                    ) implies full_sat(sigma, old(self).cs()) by {
                    assert forall|k: int| 0 <= k < self.cs().len() implies full_clause_sat(
                        sigma,
                        #[trigger] self.cs()[k],
                    ) by {
                        let c = self.cs()[k];
                        if !clause_has_true(self.assignment@, c) {
                            assert(clause_two_unassigned(self.assignment@, c));
                            let (i, j) = choose|i: int, j: int|
                                0 <= i < j < c.len() && lit_val(
                                    self.assignment@,
                                    #[trigger] c[i] as int,
                                ) is None && lit_val(self.assignment@, #[trigger] c[j] as int)
                                    is None;
                            assert(lit_val(self.assignment@, c[i] as int) is Some);
                            assert(false);
                        }
                        assert(clause_has_true(self.assignment@, c));
                        let i = choose|i: int|
                            0 <= i < c.len() && lit_val(self.assignment@, #[trigger] c[i] as int)
                                == Some(true);
                        let l = c[i] as int;
                        assert(lit_ok(l, self.n()));
                        assert(self.assignment@[lit_var(l)] == Some(lit_pol(l)));
                        assert(sigma[lit_var(l)] == lit_pol(l));
                        assert(full_lit_sat(sigma, l));
                    }
                }
                lemma_extends_trans(self.assignment@, s1.assignment@, old(self).assignment@);
                lemma_prefix_trans(old(self).history@, s1.history@, self.history@);
            }
            return true;
        }
        let pick_var: usize = picked.unwrap();

        let try_positive_first: bool = self.positives[pick_var] >= self.negatives[pick_var];

        let snapshot: usize = self.history.len();

        let first_lit: i32 = if try_positive_first {
            pick_var as i32
        } else {
            -(pick_var as i32)
        };
        assert(lit_ok(first_lit as int, self.n()));
        assert(lit_var(first_lit as int) == pick_var as int);

        let p1 = self.propagate(first_lit);
        let ghost s3 = *self;
        proof {
            assert(p1);
            lemma_num_unassigned_update(
                s2.assignment@,
                pick_var as int,
                lit_pol(first_lit as int),
            );
            lemma_extends_trans(s2.assignment@, s1.assignment@, old(self).assignment@);
            lemma_num_unassigned_extends(s2.assignment@, old(self).assignment@);
            lemma_num_unassigned_nonneg(s3.assignment@);
        }
        if p1 && self.solve() {
            proof {
                lemma_extends_trans(self.assignment@, s3.assignment@, s2.assignment@);
                lemma_extends_trans(self.assignment@, s2.assignment@, old(self).assignment@);
                lemma_prefix_trans(old(self).history@, s2.history@, s3.history@);
                lemma_prefix_trans(old(self).history@, s3.history@, self.history@);
            }
            return true;
        }

        self.backtrack(snapshot);
        proof {
            assert(self.history@ =~= s2.history@);
            lemma_asn_determined(self.assignment@, s2.assignment@, s2.history@, self.n());
        }

        let p2 = self.propagate(-first_lit);
        let ghost s4 = *self;
        proof {
            assert(p2);
            lemma_num_unassigned_update(
                s2.assignment@,
                pick_var as int,
                lit_pol(-first_lit as int),
            );
            lemma_num_unassigned_nonneg(s4.assignment@);
        }
        if p2 && self.solve() {
            proof {
                lemma_extends_trans(self.assignment@, s4.assignment@, s2.assignment@);
                lemma_extends_trans(self.assignment@, s2.assignment@, old(self).assignment@);
                lemma_prefix_trans(old(self).history@, s2.history@, s4.history@);
                lemma_prefix_trans(old(self).history@, s4.history@, self.history@);
            }
            return true;
        }

        self.backtrack(entry_snapshot);
        proof {
            assert(old(self).history@ =~= self.history@);
            lemma_asn_determined(
                self.assignment@,
                old(self).assignment@,
                self.history@,
                self.n(),
            );
            assert forall|sigma: Seq<bool>|
                sigma.len() == old(self).n() + 1 && total_compat(
                    sigma,
                    old(self).assignment@,
                ) implies !full_sat(sigma, old(self).cs()) by {
                if full_sat(sigma, old(self).cs()) {
                    let sigma2 = choose|sigma2: Seq<bool>|
                        sigma2.len() == old(self).n() + 1 && total_compat(sigma2, s1.assignment@)
                            && full_sat(sigma2, old(self).cs());
                    assert(total_compat(sigma2, s2.assignment@));
                    let pv = pick_var as int;
                    if sigma2[pv] == lit_pol(first_lit as int) {
                        assert(total_compat(sigma2, s3.assignment@));
                        assert(!full_sat(sigma2, old(self).cs()));
                    } else {
                        assert(sigma2[pv] == lit_pol(-first_lit as int));
                        assert(total_compat(sigma2, s4.assignment@));
                        assert(!full_sat(sigma2, old(self).cs()));
                    }
                    assert(false);
                }
            }
        }
        false
    }

    /// Rolls the trail back to a snapshot length, clearing each popped
    /// variable's assignment in reverse order.
    #[verifier::loop_isolation(false)]
    pub fn backtrack(&mut self, saved_len: usize)
        requires
            old(self).wf(),
            saved_len <= old(self).history@.len(),
        ensures
            final(self).wf(),
            final(self).same_problem(*old(self)),
            final(self).watches == old(self).watches,
            final(self).watch_lists == old(self).watch_lists,
            final(self).history@ == old(self).history@.take(saved_len as int),
            asn_extends(old(self).assignment@, final(self).assignment@),
    {
        while self.history.len() > saved_len
            invariant
                self.wf(),
                self.same_problem(*old(self)),
                self.watches == old(self).watches,
                self.watch_lists == old(self).watch_lists,
                saved_len <= self.history@.len(),
                self.history@.len() <= old(self).history@.len(),
                self.history@ == old(self).history@.take(self.history@.len() as int),
                asn_extends(old(self).assignment@, self.assignment@),
            decreases self.history@.len(),
        {
            let ghost prev = *self;
            let lit = self.history.pop().unwrap();
            let var_idx: usize = if lit > 0 {
                lit as usize
            } else {
                (-lit) as usize
            };
            self.assignment.set(var_idx, None);
            proof {
                let n = self.n();
                let h = self.history@;
                let hp = prev.history@;
                assert(hp[hp.len() - 1] == lit);
                assert(lit_var(lit as int) == var_idx as int);
                assert forall|i: int|
                    0 <= i < h.len() implies self.assignment@[lit_var(#[trigger] h[i] as int)]
                    == Some(lit_pol(h[i] as int)) by {
                    assert(h[i] == hp[i]);
                    assert(lit_var(hp[i] as int) != lit_var(lit as int));
                }
                assert forall|v: int|
                    1 <= v <= n && (#[trigger] self.assignment@[v]) is Some implies exists|i: int|
                    0 <= i < h.len() && lit_var(#[trigger] h[i] as int) == v by {
                    assert(prev.assignment@[v] is Some);
                    let i = choose|i: int|
                        0 <= i < hp.len() && lit_var(#[trigger] hp[i] as int) == v;
                    assert(i != hp.len() - 1);
                    assert(lit_var(h[i] as int) == v);
                }
                assert forall|i: int| 0 <= i < h.len() implies h[i] == old(self).history@[i] by {
                    assert(h[i] == hp[i]);
                    assert(hp[i] == old(self).history@.take(hp.len() as int)[i]);
                }
                assert(self.history@ =~= old(self).history@.take(self.history@.len() as int));
            }
        }
        proof {
            assert(self.history@ =~= old(self).history@.take(saved_len as int));
        }
    }
}

} // verus!
