//! Grouping of DIMACS literal tokens into clauses: a `0` token ends the
//! clause being gathered, a clause with no literals is not emitted, and a
//! clause left unterminated at end of input is discarded.

use vstd::prelude::*;

use crate::solver::view_cs;

verus! {

/// The clauses formed from `tokens`, with `cur` the literals of the
/// clause open so far.
pub open spec fn grouped(tokens: Seq<i32>, cur: Seq<i32>) -> Seq<Seq<i32>>
    decreases tokens.len(),
{
    if tokens.len() == 0 {
        Seq::empty()
    } else if tokens.first() == 0 {
        if cur.len() > 0 {
            seq![cur] + grouped(tokens.drop_first(), Seq::empty())
        } else {
            grouped(tokens.drop_first(), Seq::empty())
        }
    } else {
        grouped(tokens.drop_first(), cur.push(tokens.first()))
    }
}

/// Builds the clause list from a stream of numeric tokens.
#[verifier::loop_isolation(false)]
pub fn build_clauses(tokens: &Vec<i32>) -> (r: Vec<Vec<i32>>)
    ensures
        view_cs(r) == grouped(tokens@, Seq::<i32>::empty()),
{
    let mut clauses: Vec<Vec<i32>> = Vec::new();
    let mut current: Vec<i32> = Vec::new();

    proof {
        assert(tokens@.skip(0) =~= tokens@);
        assert(view_cs(clauses) =~= Seq::<Seq<i32>>::empty());
        assert(view_cs(clauses) + grouped(tokens@, Seq::<i32>::empty()) =~= grouped(
            tokens@,
            Seq::<i32>::empty(),
        ));
    }
    let mut i: usize = 0;
    while i < tokens.len()
        invariant
            i <= tokens@.len(),
            grouped(tokens@, Seq::<i32>::empty()) == view_cs(clauses) + grouped(
                tokens@.skip(i as int),
                current@,
            ),
        decreases tokens@.len() - i,
    {
        let n: i32 = tokens[i];
        let ghost cur_pre = current@;
        let ghost rest = tokens@.skip(i as int);
        proof {
            assert(rest.len() > 0);
            assert(rest.first() == n);
            assert(rest.drop_first() =~= tokens@.skip(i as int + 1));
        }
        if n == 0 {
            if !current.is_empty() {
                let ghost pre = view_cs(clauses);
                let ghost cur0 = current@;
                let finished = current;
                current = Vec::new();
                clauses.push(finished);
                proof {
                    let g1 = grouped(tokens@.skip(i as int + 1), Seq::<i32>::empty());
                    assert(grouped(rest, cur_pre) == seq![cur_pre] + g1);
                    assert(view_cs(clauses) =~= pre.push(cur0));
                    assert(pre + (seq![cur0] + g1) =~= pre.push(cur0) + g1);
                }
            } else {
                proof {
                    assert(grouped(rest, cur_pre) == grouped(
                        tokens@.skip(i as int + 1),
                        Seq::<i32>::empty(),
                    ));
                    assert(current@ =~= Seq::<i32>::empty());
                }
            }
        } else {
            current.push(n);
            proof {
                assert(grouped(rest, cur_pre) == grouped(
                    tokens@.skip(i as int + 1),
                    cur_pre.push(n),
                ));
                assert(current@ == cur_pre.push(n));
            }
        }
        i = i + 1;
    }
    proof {
        assert(tokens@.skip(tokens@.len() as int) =~= Seq::<i32>::empty());
        assert(view_cs(clauses) + Seq::<Seq<i32>>::empty() =~= view_cs(clauses));
    }
    clauses
}

} // verus!
