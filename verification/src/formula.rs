//! The mathematical model: literals, clauses, partial and total
//! assignments, satisfaction, tautologies, and occurrence counts.

use vstd::prelude::*;

verus! {

/// A literal is a signed nonzero integer whose magnitude names a variable
/// and whose sign gives the polarity.
pub open spec fn lit_ok(l: int, n: int) -> bool {
    l != 0 && -n <= l && l <= n
}

/// The variable a literal speaks of.
pub open spec fn lit_var(l: int) -> int {
    if l < 0 {
        -l
    } else {
        l
    }
}

/// The polarity of a literal: `true` for a positive literal.
pub open spec fn lit_pol(l: int) -> bool {
    l > 0
}

/// Every literal of the clause is within range for `n` variables.
pub open spec fn lits_ok(c: Seq<i32>, n: int) -> bool {
    forall|i: int| 0 <= i < c.len() ==> lit_ok(#[trigger] c[i] as int, n)
}

/// Every literal of every clause is within range for `n` variables.
pub open spec fn all_lits_ok(cs: Seq<Seq<i32>>, n: int) -> bool {
    forall|k: int| 0 <= k < cs.len() ==> lits_ok(#[trigger] cs[k], n)
}

/// The value a partial assignment gives a literal: `None` while the
/// variable is unassigned, otherwise whether the literal comes out true.
pub open spec fn lit_val(asn: Seq<Option<bool>>, l: int) -> Option<bool>
    recommends
        0 <= lit_var(l) < asn.len(),
{
    match asn[lit_var(l)] {
        None => None,
        Some(b) => Some(b == lit_pol(l)),
    }
}

/// A total assignment agrees with a partial one on every assigned variable.
pub open spec fn total_compat(sigma: Seq<bool>, asn: Seq<Option<bool>>) -> bool {
    &&& sigma.len() == asn.len()
    &&& forall|v: int| 0 <= v < asn.len() && (#[trigger] asn[v]) is Some ==> asn[v] == Some(sigma[v])
}

/// A literal is true under a total assignment.
pub open spec fn full_lit_sat(sigma: Seq<bool>, l: int) -> bool
    recommends
        0 <= lit_var(l) < sigma.len(),
{
    sigma[lit_var(l)] == lit_pol(l)
}

/// A clause is satisfied by a total assignment when some literal is true.
pub open spec fn full_clause_sat(sigma: Seq<bool>, c: Seq<i32>) -> bool {
    exists|i: int| 0 <= i < c.len() && full_lit_sat(sigma, #[trigger] c[i] as int)
}

/// A clause set is satisfied when every clause is.
pub open spec fn full_sat(sigma: Seq<bool>, cs: Seq<Seq<i32>>) -> bool {
    forall|k: int| 0 <= k < cs.len() ==> full_clause_sat(sigma, #[trigger] cs[k])
}

/// A clause containing both a literal and its negation.
pub open spec fn is_taut(c: Seq<i32>) -> bool {
    exists|i: int, j: int|
        0 <= i < c.len() && 0 <= j < c.len() && #[trigger] c[i] as int == -(#[trigger] c[j] as int)
}

/// The clause has some true literal under a partial assignment.
pub open spec fn clause_has_true(asn: Seq<Option<bool>>, c: Seq<i32>) -> bool {
    exists|i: int| 0 <= i < c.len() && lit_val(asn, #[trigger] c[i] as int) == Some(true)
}

/// Every literal of the clause is false under a partial assignment.
pub open spec fn clause_all_false(asn: Seq<Option<bool>>, c: Seq<i32>) -> bool {
    forall|i: int| 0 <= i < c.len() ==> lit_val(asn, #[trigger] c[i] as int) == Some(false)
}

/// At least two distinct positions of the clause hold unassigned literals.
pub open spec fn clause_two_unassigned(asn: Seq<Option<bool>>, c: Seq<i32>) -> bool {
    exists|i: int, j: int|
        0 <= i < j < c.len() && lit_val(asn, #[trigger] c[i] as int) is None && lit_val(
            asn,
            #[trigger] c[j] as int,
        ) is None
}

/// Occurrences of the exact literal value `l` in one clause.
pub open spec fn cnt_in(c: Seq<i32>, l: int) -> int
    decreases c.len(),
{
    if c.len() == 0 {
        0
    } else {
        cnt_in(c.drop_last(), l) + if c.last() as int == l {
            1int
        } else {
            0int
        }
    }
}

/// Occurrences of the exact literal value `l` across a clause set.
pub open spec fn cnt_lit(cs: Seq<Seq<i32>>, l: int) -> int
    decreases cs.len(),
{
    if cs.len() == 0 {
        0
    } else {
        cnt_lit(cs.drop_last(), l) + cnt_in(cs.last(), l)
    }
}

/// Total number of literal positions across a clause set.
pub open spec fn total_lits(cs: Seq<Seq<i32>>) -> int
    decreases cs.len(),
{
    if cs.len() == 0 {
        0
    } else {
        total_lits(cs.drop_last()) + cs.last().len()
    }
}

/// The static polarity class of a variable: `1` pure positive, `-1` pure
/// negative, `0` mixed or absent.
pub open spec fn pol_spec(cs: Seq<Seq<i32>>, v: int) -> int {
    if cnt_lit(cs, v) > 0 && cnt_lit(cs, -v) == 0 {
        1
    } else if cnt_lit(cs, -v) > 0 && cnt_lit(cs, v) == 0 {
        -1
    } else {
        0
    }
}

/// How many slots of a partial assignment are still unassigned.
pub open spec fn num_unassigned(asn: Seq<Option<bool>>) -> int
    decreases asn.len(),
{
    if asn.len() == 0 {
        0
    } else {
        num_unassigned(asn.drop_last()) + if asn.last() is None {
            1int
        } else {
            0int
        }
    }
}

/// `a2` keeps every assignment of `a1` (and may add more).
pub open spec fn asn_extends(a2: Seq<Option<bool>>, a1: Seq<Option<bool>>) -> bool {
    &&& a2.len() == a1.len()
    &&& forall|v: int| 0 <= v < a1.len() && (#[trigger] a1[v]) is Some ==> a2[v] == a1[v]
}

/// The trail discipline: the history lists exactly the assigned variables,
/// each at most once, and the assignment matches each recorded literal.
pub open spec fn trail_inv(asn: Seq<Option<bool>>, hist: Seq<i32>, n: int) -> bool {
    &&& asn.len() == n + 1
    &&& forall|i: int| 0 <= i < hist.len() ==> lit_ok(#[trigger] hist[i] as int, n)
    &&& forall|i: int, j: int|
        0 <= i < j < hist.len() ==> lit_var(#[trigger] hist[i] as int) != lit_var(
            #[trigger] hist[j] as int,
        )
    &&& forall|i: int|
        0 <= i < hist.len() ==> asn[lit_var(#[trigger] hist[i] as int)] == Some(
            lit_pol(hist[i] as int),
        )
    &&& forall|v: int|
        1 <= v <= n && (#[trigger] asn[v]) is Some ==> exists|i: int|
            0 <= i < hist.len() && lit_var(#[trigger] hist[i] as int) == v
    &&& asn[0] is None
}

/// Unassigned occurrences of variable `v` among the first `upto` literal
/// positions of one clause.
pub open spec fn var_positions_upto(
    asn: Seq<Option<bool>>,
    c: Seq<i32>,
    v: int,
    upto: int,
) -> int
    decreases upto,
{
    if upto <= 0 {
        0
    } else {
        var_positions_upto(asn, c, v, upto - 1) + if lit_var(c[upto - 1] as int) == v && asn[v]
            is None {
            1int
        } else {
            0int
        }
    }
}

/// The decision-heuristic weight one clause gives a variable: its
/// unassigned occurrences, unless the clause already has a true literal.
pub open spec fn clause_score(asn: Seq<Option<bool>>, c: Seq<i32>, v: int) -> int {
    if clause_has_true(asn, c) {
        0
    } else {
        var_positions_upto(asn, c, v, c.len() as int)
    }
}

/// The decision-heuristic score of a variable: its unassigned occurrences
/// over all clauses with no currently-true literal.
pub open spec fn var_score(asn: Seq<Option<bool>>, cs: Seq<Seq<i32>>, v: int) -> int
    decreases cs.len(),
{
    if cs.len() == 0 {
        0
    } else {
        var_score(asn, cs.drop_last(), v) + clause_score(asn, cs.last(), v)
    }
}

pub proof fn lemma_var_positions_nonneg(asn: Seq<Option<bool>>, c: Seq<i32>, v: int, upto: int)
    ensures
        0 <= var_positions_upto(asn, c, v, upto) <= if upto <= 0 {
            0int
        } else {
            upto
        },
    decreases upto,
{
    if upto > 0 {
        lemma_var_positions_nonneg(asn, c, v, upto - 1);
    }
}

pub proof fn lemma_var_score_le_total(asn: Seq<Option<bool>>, cs: Seq<Seq<i32>>, v: int)
    ensures
        0 <= var_score(asn, cs, v) <= total_lits(cs),
    decreases cs.len(),
{
    if cs.len() > 0 {
        lemma_var_score_le_total(asn, cs.drop_last(), v);
        lemma_var_positions_nonneg(asn, cs.last(), v, cs.last().len() as int);
    }
}

pub proof fn lemma_var_score_push(asn: Seq<Option<bool>>, cs: Seq<Seq<i32>>, c: Seq<i32>, v: int)
    ensures
        var_score(asn, cs.push(c), v) == var_score(asn, cs, v) + clause_score(asn, c, v),
{
    assert(cs.push(c).drop_last() =~= cs);
    assert(cs.push(c).last() == c);
}

/// One clause of the set bounds a variable's score from below.
pub proof fn lemma_var_score_lower(asn: Seq<Option<bool>>, cs: Seq<Seq<i32>>, k: int, v: int)
    requires
        0 <= k < cs.len(),
    ensures
        var_score(asn, cs, v) >= clause_score(asn, cs[k], v),
    decreases cs.len(),
{
    lemma_var_positions_nonneg(asn, cs.last(), v, cs.last().len() as int);
    if k == cs.len() - 1 {
        lemma_var_score_le_total(asn, cs.drop_last(), v);
        lemma_total_lits_nonneg(cs.drop_last());
    } else {
        lemma_var_score_lower(asn, cs.drop_last(), k, v);
        assert(cs.drop_last()[k] == cs[k]);
    }
}

/// An unassigned occurrence makes the clause's weight positive.
pub proof fn lemma_var_positions_pos(asn: Seq<Option<bool>>, c: Seq<i32>, v: int, p: int, upto: int)
    requires
        0 <= p < upto <= c.len(),
        lit_var(c[p] as int) == v,
        asn[v] is None,
    ensures
        var_positions_upto(asn, c, v, upto) >= 1,
    decreases upto,
{
    lemma_var_positions_nonneg(asn, c, v, upto - 1);
    if p < upto - 1 {
        lemma_var_positions_pos(asn, c, v, p, upto - 1);
    }
}

/// A prefix of the clause set never exceeds the whole in literal count.
pub proof fn lemma_total_lits_take_le(cs: Seq<Seq<i32>>, k: int)
    requires
        0 <= k <= cs.len(),
    ensures
        total_lits(cs.take(k)) <= total_lits(cs),
    decreases cs.len() - k,
{
    if k == cs.len() {
        assert(cs.take(k) =~= cs);
    } else {
        lemma_take_push(cs, k);
        lemma_cnt_lit_push(cs.take(k), cs[k], 0);
        lemma_total_lits_take_le(cs, k + 1);
    }
}


/// The clause set with every tautological clause dropped; order and
/// multiplicity of the survivors are kept.
pub open spec fn non_taut(cs: Seq<Seq<i32>>) -> Seq<Seq<i32>>
    decreases cs.len(),
{
    if cs.len() == 0 {
        Seq::empty()
    } else if is_taut(cs.last()) {
        non_taut(cs.drop_last())
    } else {
        non_taut(cs.drop_last()).push(cs.last())
    }
}

/// Stable insertion into a length-sorted clause list: the clause lands
/// after every clause of equal or smaller length.
pub open spec fn insert_by_len(c: Seq<i32>, sorted: Seq<Seq<i32>>) -> Seq<Seq<i32>>
    decreases sorted.len(),
{
    if sorted.len() == 0 {
        seq![c]
    } else if c.len() < sorted.first().len() {
        seq![c] + sorted
    } else {
        seq![sorted.first()] + insert_by_len(c, sorted.drop_first())
    }
}

/// Stable sort ascending by clause length: clauses of equal length keep
/// their original relative order.
pub open spec fn sort_by_len(cs: Seq<Seq<i32>>) -> Seq<Seq<i32>>
    decreases cs.len(),
{
    if cs.len() == 0 {
        Seq::empty()
    } else {
        insert_by_len(cs.last(), sort_by_len(cs.drop_last()))
    }
}


pub proof fn lemma_insert_by_len_len(c: Seq<i32>, sorted: Seq<Seq<i32>>)
    ensures
        insert_by_len(c, sorted).len() == sorted.len() + 1,
    decreases sorted.len(),
{
    if sorted.len() > 0 && !(c.len() < sorted.first().len()) {
        lemma_insert_by_len_len(c, sorted.drop_first());
    }
}

pub proof fn lemma_sort_by_len_len(cs: Seq<Seq<i32>>)
    ensures
        sort_by_len(cs).len() == cs.len(),
    decreases cs.len(),
{
    if cs.len() > 0 {
        lemma_sort_by_len_len(cs.drop_last());
        lemma_insert_by_len_len(cs.last(), sort_by_len(cs.drop_last()));
    }
}

/// Where stable insertion places a clause in a sorted list: right before
/// the first position whose clause is strictly longer.
pub proof fn lemma_insert_point(sorted: Seq<Seq<i32>>, c: Seq<i32>, j: int)
    requires
        forall|a: int, b: int|
            0 <= a < b < sorted.len() ==> (#[trigger] sorted[a]).len() <= (
            #[trigger] sorted[b]).len(),
        0 <= j <= sorted.len(),
        forall|a: int| 0 <= a < j ==> (#[trigger] sorted[a]).len() <= c.len(),
        j < sorted.len() ==> c.len() < sorted[j].len(),
    ensures
        insert_by_len(c, sorted) == sorted.take(j) + seq![c] + sorted.skip(j),
    decreases j,
{
    if j == 0 {
        if sorted.len() == 0 {
            assert(insert_by_len(c, sorted) =~= sorted.take(0) + seq![c] + sorted.skip(0));
        } else {
            assert(c.len() < sorted.first().len());
            assert(insert_by_len(c, sorted) =~= sorted.take(0) + seq![c] + sorted.skip(0));
        }
    } else {
        assert(sorted[0].len() <= c.len());
        let tail = sorted.drop_first();
        assert forall|a: int, b: int|
            0 <= a < b < tail.len() implies (#[trigger] tail[a]).len() <= (
        #[trigger] tail[b]).len() by {
            assert(tail[a] == sorted[a + 1]);
            assert(tail[b] == sorted[b + 1]);
        }
        assert forall|a: int| 0 <= a < j - 1 implies (#[trigger] tail[a]).len() <= c.len() by {
            assert(tail[a] == sorted[a + 1]);
        }
        if j - 1 < tail.len() {
            assert(tail[j - 1] == sorted[j]);
        }
        lemma_insert_point(tail, c, j - 1);
        assert(insert_by_len(c, sorted) == seq![sorted.first()] + (tail.take(j - 1) + seq![c]
            + tail.skip(j - 1)));
        assert(seq![sorted.first()] + (tail.take(j - 1) + seq![c] + tail.skip(j - 1)) =~= sorted.take(
            j,
        ) + seq![c] + sorted.skip(j));
    }
}

/// Replacing one clause changes the literal total by the length difference.
pub proof fn lemma_total_lits_update(cs: Seq<Seq<i32>>, i: int, c: Seq<i32>)
    requires
        0 <= i < cs.len(),
    ensures
        total_lits(cs.update(i, c)) == total_lits(cs) - cs[i].len() + c.len(),
    decreases cs.len(),
{
    let upd = cs.update(i, c);
    if i == cs.len() - 1 {
        assert(upd.drop_last() =~= cs.drop_last());
        assert(upd.last() == c);
    } else {
        lemma_total_lits_update(cs.drop_last(), i, c);
        assert(upd.drop_last() =~= cs.drop_last().update(i, c));
        assert(upd.last() == cs.last());
    }
}

/// The total assignment that completes a partial one, giving `true` to
/// every unassigned variable (the don't-care convention).
pub open spec fn completion(asn: Seq<Option<bool>>) -> Seq<bool> {
    Seq::new(
        asn.len(),
        |v: int|
            match asn[v] {
                Some(b) => b,
                None => true,
            },
    )
}

pub proof fn lemma_completion_compat(asn: Seq<Option<bool>>)
    ensures
        total_compat(completion(asn), asn),
        completion(asn).len() == asn.len(),
{
}

/// A partial assignment is a function of the history it was built from.
pub proof fn lemma_asn_determined(
    a1: Seq<Option<bool>>,
    a2: Seq<Option<bool>>,
    hist: Seq<i32>,
    n: int,
)
    requires
        trail_inv(a1, hist, n),
        trail_inv(a2, hist, n),
    ensures
        a1 == a2,
{
    assert forall|v: int| 0 <= v < a1.len() implies a1[v] == a2[v] by {
        if v == 0 {
        } else if a1[v] is Some {
            let i = choose|i: int| 0 <= i < hist.len() && lit_var(#[trigger] hist[i] as int) == v;
            assert(a1[v] == Some(lit_pol(hist[i] as int)));
            assert(a2[v] == Some(lit_pol(hist[i] as int)));
        } else {
            if a2[v] is Some {
                let i = choose|i: int|
                    0 <= i < hist.len() && lit_var(#[trigger] hist[i] as int) == v;
                assert(a1[v] == Some(lit_pol(hist[i] as int)));
            }
        }
    }
    assert(a1 =~= a2);
}

pub proof fn lemma_prefix_trans(a: Seq<i32>, b: Seq<i32>, c: Seq<i32>)
    requires
        a.is_prefix_of(b),
        b.is_prefix_of(c),
    ensures
        a.is_prefix_of(c),
{
    assert forall|i: int| 0 <= i < a.len() implies a[i] == c[i] by {
        assert(a[i] == b.take(a.len() as int)[i]);
        assert(b[i] == c.take(b.len() as int)[i]);
    }
    assert(a =~= c.take(a.len() as int));
}

pub proof fn lemma_cnt_in_nonneg(c: Seq<i32>, l: int)
    ensures
        0 <= cnt_in(c, l),
    decreases c.len(),
{
    if c.len() > 0 {
        lemma_cnt_in_nonneg(c.drop_last(), l);
    }
}

pub proof fn lemma_cnt_lit_nonneg(cs: Seq<Seq<i32>>, l: int)
    ensures
        0 <= cnt_lit(cs, l),
    decreases cs.len(),
{
    if cs.len() > 0 {
        lemma_cnt_lit_nonneg(cs.drop_last(), l);
        lemma_cnt_in_nonneg(cs.last(), l);
    }
}

pub proof fn lemma_cnt_in_zero_absent(c: Seq<i32>, l: int)
    requires
        cnt_in(c, l) == 0,
    ensures
        forall|i: int| 0 <= i < c.len() ==> #[trigger] c[i] as int != l,
    decreases c.len(),
{
    if c.len() > 0 {
        lemma_cnt_in_nonneg(c.drop_last(), l);
        lemma_cnt_in_zero_absent(c.drop_last(), l);
        assert forall|i: int| 0 <= i < c.len() implies #[trigger] c[i] as int != l by {
            if i < c.len() - 1 {
                assert(c.drop_last()[i] == c[i]);
            }
        }
    }
}

pub proof fn lemma_cnt_lit_zero_absent(cs: Seq<Seq<i32>>, l: int)
    requires
        cnt_lit(cs, l) == 0,
    ensures
        forall|k: int, i: int|
            0 <= k < cs.len() && 0 <= i < cs[k].len() ==> #[trigger] cs[k][i] as int != l,
    decreases cs.len(),
{
    if cs.len() > 0 {
        lemma_cnt_lit_nonneg(cs.drop_last(), l);
        lemma_cnt_in_nonneg(cs.last(), l);
        lemma_cnt_lit_zero_absent(cs.drop_last(), l);
        lemma_cnt_in_zero_absent(cs.last(), l);
        assert forall|k: int, i: int|
            0 <= k < cs.len() && 0 <= i < cs[k].len() implies #[trigger] cs[k][i] as int != l by {
            if k < cs.len() - 1 {
                assert(cs.drop_last()[k] == cs[k]);
            } else {
                assert(cs.last() == cs[k]);
            }
        }
    }
}

pub proof fn lemma_cnt_pair_le_total(cs: Seq<Seq<i32>>, v: int)
    requires
        v != 0,
    ensures
        cnt_lit(cs, v) + cnt_lit(cs, -v) <= total_lits(cs),
    decreases cs.len(),
{
    if cs.len() > 0 {
        lemma_cnt_pair_le_total(cs.drop_last(), v);
        lemma_cnt_in_pair_le_len(cs.last(), v);
    }
}

pub proof fn lemma_cnt_in_pair_le_len(c: Seq<i32>, v: int)
    requires
        v != 0,
    ensures
        cnt_in(c, v) + cnt_in(c, -v) <= c.len(),
    decreases c.len(),
{
    if c.len() > 0 {
        lemma_cnt_in_pair_le_len(c.drop_last(), v);
    }
}

pub proof fn lemma_cnt_in_le_len(c: Seq<i32>, l: int)
    ensures
        cnt_in(c, l) <= c.len(),
    decreases c.len(),
{
    if c.len() > 0 {
        lemma_cnt_in_le_len(c.drop_last(), l);
    }
}

pub proof fn lemma_total_lits_nonneg(cs: Seq<Seq<i32>>)
    ensures
        0 <= total_lits(cs),
    decreases cs.len(),
{
    if cs.len() > 0 {
        lemma_total_lits_nonneg(cs.drop_last());
    }
}

/// Unfolding `cnt_lit`, `cnt_in` and `total_lits` one `push` at a time.
pub proof fn lemma_cnt_lit_push(cs: Seq<Seq<i32>>, c: Seq<i32>, l: int)
    ensures
        cnt_lit(cs.push(c), l) == cnt_lit(cs, l) + cnt_in(c, l),
        total_lits(cs.push(c)) == total_lits(cs) + c.len(),
{
    assert(cs.push(c).drop_last() =~= cs);
    assert(cs.push(c).last() == c);
}

pub proof fn lemma_cnt_in_push(c: Seq<i32>, x: i32, l: int)
    ensures
        cnt_in(c.push(x), l) == cnt_in(c, l) + if x as int == l {
            1int
        } else {
            0int
        },
{
    assert(c.push(x).drop_last() =~= c);
    assert(c.push(x).last() == x);
}

/// `take(i + 1)` is `take(i)` plus one element.
pub proof fn lemma_take_push<A>(s: Seq<A>, i: int)
    requires
        0 <= i < s.len(),
    ensures
        s.take(i + 1) =~= s.take(i).push(s[i]),
{
}

/// Assigning one unassigned slot lowers the unassigned count by one.
pub proof fn lemma_num_unassigned_update(asn: Seq<Option<bool>>, v: int, b: bool)
    requires
        0 <= v < asn.len(),
        asn[v] is None,
    ensures
        num_unassigned(asn.update(v, Some(b))) == num_unassigned(asn) - 1,
    decreases asn.len(),
{
    let upd = asn.update(v, Some(b));
    if v == asn.len() - 1 {
        assert(upd.drop_last() =~= asn.drop_last());
    } else {
        lemma_num_unassigned_update(asn.drop_last(), v, b);
        assert(upd.drop_last() =~= asn.drop_last().update(v, Some(b)));
        assert(upd.last() == asn.last());
    }
}

/// Extension never raises the unassigned count.
pub proof fn lemma_num_unassigned_extends(a2: Seq<Option<bool>>, a1: Seq<Option<bool>>)
    requires
        asn_extends(a2, a1),
    ensures
        num_unassigned(a2) <= num_unassigned(a1),
    decreases a1.len(),
{
    if a1.len() > 0 {
        assert(asn_extends(a2.drop_last(), a1.drop_last())) by {
            assert forall|v: int|
                0 <= v < a1.drop_last().len() && (#[trigger] a1.drop_last()[v]) is Some implies a2
                .drop_last()[v] == a1.drop_last()[v] by {
                assert(a1[v] == a1.drop_last()[v]);
                assert(a2[v] == a2.drop_last()[v]);
            }
        }
        lemma_num_unassigned_extends(a2.drop_last(), a1.drop_last());
        if a1.last() is Some {
            assert(a2[a1.len() - 1] == a1[a1.len() - 1]);
        }
    }
}

pub proof fn lemma_num_unassigned_nonneg(asn: Seq<Option<bool>>)
    ensures
        0 <= num_unassigned(asn),
    decreases asn.len(),
{
    if asn.len() > 0 {
        lemma_num_unassigned_nonneg(asn.drop_last());
    }
}

/// Extension is transitive, and compatibility flows back along it.
pub proof fn lemma_extends_trans(
    a3: Seq<Option<bool>>,
    a2: Seq<Option<bool>>,
    a1: Seq<Option<bool>>,
)
    requires
        asn_extends(a3, a2),
        asn_extends(a2, a1),
    ensures
        asn_extends(a3, a1),
{
}

/// Flipping a variable that never occurs against polarity `p` keeps a
/// satisfying total assignment satisfying.
pub proof fn lemma_flip_pure(sigma: Seq<bool>, cs: Seq<Seq<i32>>, v: int, p: bool, n: int)
    requires
        full_sat(sigma, cs),
        all_lits_ok(cs, n),
        1 <= v <= n,
        sigma.len() == n + 1,
        cnt_lit(cs, if p {
            -v
        } else {
            v
        }) == 0,
    ensures
        full_sat(sigma.update(v, p), cs),
{
    let against = if p {
        -v
    } else {
        v
    };
    lemma_cnt_lit_zero_absent(cs, against);
    let sigma2 = sigma.update(v, p);
    assert forall|k: int| 0 <= k < cs.len() implies full_clause_sat(sigma2, #[trigger] cs[k]) by {
        let c = cs[k];
        let i = choose|i: int| 0 <= i < c.len() && full_lit_sat(sigma, #[trigger] c[i] as int);
        let l = c[i] as int;
        if lit_var(l) != v {
            assert(full_lit_sat(sigma2, l));
        } else {
            assert(l != against);
            assert(l == if p {
                v
            } else {
                -v
            });
            assert(lit_pol(l) == p);
            assert(full_lit_sat(sigma2, l));
        }
    }
}

/// A unit clause forces its one unassigned literal: any compatible
/// satisfying total assignment already agrees with the forced value.
pub proof fn lemma_unit_forces(
    sigma: Seq<bool>,
    asn: Seq<Option<bool>>,
    c: Seq<i32>,
    l: int,
    n: int,
)
    requires
        total_compat(sigma, asn),
        full_clause_sat(sigma, c),
        asn.len() == n + 1,
        lits_ok(c, n),
        lit_ok(l, n),
        lit_val(asn, l) is None,
        forall|i: int|
            0 <= i < c.len() ==> #[trigger] c[i] as int == l || lit_val(asn, c[i] as int) == Some(
                false,
            ),
    ensures
        total_compat(sigma, asn.update(lit_var(l), Some(lit_pol(l)))),
{
    let i = choose|i: int| 0 <= i < c.len() && full_lit_sat(sigma, #[trigger] c[i] as int);
    let w = c[i] as int;
    if w != l {
        assert(lit_val(asn, w) == Some(false));
        assert(asn[lit_var(w)] == Some(!lit_pol(w)));
        assert(sigma[lit_var(w)] == !lit_pol(w));
        assert(!full_lit_sat(sigma, w));
        assert(false);
    }
    assert(sigma[lit_var(l)] == lit_pol(l));
}

/// No total assignment compatible with a falsified clause satisfies it.
pub proof fn lemma_conflict(sigma: Seq<bool>, asn: Seq<Option<bool>>, c: Seq<i32>, n: int)
    requires
        total_compat(sigma, asn),
        clause_all_false(asn, c),
        asn.len() == n + 1,
        lits_ok(c, n),
    ensures
        !full_clause_sat(sigma, c),
{
    assert forall|i: int| 0 <= i < c.len() implies !full_lit_sat(sigma, #[trigger] c[i] as int) by {
        let w = c[i] as int;
        assert(lit_val(asn, w) == Some(false));
        assert(asn[lit_var(w)] == Some(!lit_pol(w)));
        assert(sigma[lit_var(w)] == !lit_pol(w));
    }
}

/// A tautological clause is satisfied by every total assignment that
/// covers its variables.
pub proof fn lemma_taut_sat(sigma: Seq<bool>, c: Seq<i32>, n: int)
    requires
        is_taut(c),
        lits_ok(c, n),
        sigma.len() == n + 1,
    ensures
        full_clause_sat(sigma, c),
{
    let (i, j) = choose|i: int, j: int|
        0 <= i < c.len() && 0 <= j < c.len() && #[trigger] c[i] as int == -(#[trigger] c[j] as int);
    let l = c[i] as int;
    if full_lit_sat(sigma, l) {
    } else {
        assert(sigma[lit_var(l)] != lit_pol(l));
        assert(lit_var(-l) == lit_var(l));
        assert(lit_pol(-l) == !lit_pol(l));
        assert(full_lit_sat(sigma, c[j] as int));
    }
}

} // verus!
