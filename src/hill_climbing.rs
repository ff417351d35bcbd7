use crate::board::{
    conflict_count, is_permutation, lemma_short_score_zero, lemma_swap_permutation, size_fits,
    swapped, GenericChallengeState,
};
use crate::solution::Solution;
use vstd::prelude::*;

verus! {

/// How many moves in a row may fail to improve the score before the search
/// gives up.
pub const MAX_ITERATIONS_WITHOUT_IMPROVEMENT: usize = 1000;

/// A stochastic local search: swap two random columns, and keep the swap
/// only where it lowers the score.
pub struct HillClimbing {
    base: GenericChallengeState,
    rng: rand::StdRng,
    current_score: usize,
    iterations_without_improvement: usize,
}

/// The placement reached from `start` after trying, in order, the exchanges
/// of `tries`, each kept only where it lowers the score, and the number of
/// tries since the last one kept.
pub open spec fn climb_state(start: Seq<usize>, tries: Seq<(usize, usize)>) -> (Seq<usize>, nat)
    decreases tries.len(),
{
    if tries.len() == 0 {
        (start, 0)
    } else {
        let prev = climb_state(start, tries.drop_last());
        let q = swapped(prev.0, tries.last().0 as int, tries.last().1 as int);
        if conflict_count(q) < conflict_count(prev.0) {
            (q, 0)
        } else {
            (prev.0, prev.1 + 1)
        }
    }
}

/// What a climb from `start` through `tries` reports: the start with its
/// score, then each kept placement with its score.
pub open spec fn climb_reports(start: Seq<usize>, tries: Seq<(usize, usize)>) -> Seq<(Seq<usize>, nat)>
    decreases tries.len(),
{
    if tries.len() == 0 {
        seq![(start, conflict_count(start))]
    } else {
        let prev = climb_state(start, tries.drop_last());
        let q = swapped(prev.0, tries.last().0 as int, tries.last().1 as int);
        if conflict_count(q) < conflict_count(prev.0) {
            climb_reports(start, tries.drop_last()).push((q, conflict_count(q)))
        } else {
            climb_reports(start, tries.drop_last())
        }
    }
}

/// The climb goes on from a state: its score is not zero and at most
/// [`MAX_ITERATIONS_WITHOUT_IMPROVEMENT`] tries in a row failed.
pub open spec fn climbing(state: (Seq<usize>, nat)) -> bool {
    conflict_count(state.0) != 0 && state.1 <= MAX_ITERATIONS_WITHOUT_IMPROVEMENT
}

/// A hill climb from `start` on an `n`-board tried the pairs of distinct
/// columns `tries`, going on after each shorter prefix of them, stopped
/// after the last, and ended at `end`.
pub open spec fn climb_outcome(start: Seq<usize>, n: nat, tries: Seq<(usize, usize)>, end: Seq<usize>) -> bool {
    &&& forall|k: int| 0 <= k < tries.len() ==> (#[trigger] tries[k]).0 < n && tries[k].1 < n && tries[k].0 != tries[k].1
    &&& forall|k: int| 0 <= k < tries.len() ==> climbing(#[trigger] climb_state(start, tries.take(k)))
    &&& !climbing(climb_state(start, tries))
    &&& end == climb_state(start, tries).0
}

/// What a climb reports starts with the start, each later report is the one
/// before with two columns exchanged and a strictly lower score, and the
/// last report is the placement reached, with its score.
pub proof fn lemma_climb_reports(start: Seq<usize>, tries: Seq<(usize, usize)>)
    ensures
        climb_reports(start, tries).len() > 0,
        climb_reports(start, tries)[0] == (start, conflict_count(start)),
        climb_reports(start, tries).last() == (climb_state(start, tries).0, conflict_count(climb_state(start, tries).0)),
        forall|k: int| 0 <= k < climb_reports(start, tries).len() ==> (#[trigger] climb_reports(start, tries)[k]).1 == conflict_count(climb_reports(start, tries)[k].0),
        forall|k: int| 0 <= k < climb_reports(start, tries).len() ==> (#[trigger] climb_reports(start, tries)[k]).1 + k <= conflict_count(start),
        climb_reports(start, tries).len() <= conflict_count(start) + 1,
        forall|k: int|
            0 < k < climb_reports(start, tries).len() ==> (#[trigger] climb_reports(start, tries)[k]).1 < climb_reports(start, tries)[k - 1].1
                && exists|i: int, j: int| climb_reports(start, tries)[k].0 == #[trigger] swapped(climb_reports(start, tries)[k - 1].0, i, j),
    decreases tries.len(),
{
    if tries.len() == 0 {
        assert(climb_reports(start, tries)[0] == (start, conflict_count(start)));
    } else {
        lemma_climb_reports(start, tries.drop_last());
        let prev = climb_reports(start, tries.drop_last());
        let st = climb_state(start, tries.drop_last());
        let (i, j) = tries.last();
        let q = swapped(st.0, i as int, j as int);
        if conflict_count(q) < conflict_count(st.0) {
            let cur = prev.push((q, conflict_count(q)));
            assert forall|k: int| 0 < k < cur.len() implies (#[trigger] cur[k]).1 < cur[k - 1].1
                && exists|a: int, b: int| cur[k].0 == #[trigger] swapped(cur[k - 1].0, a, b) by {
                if k < prev.len() {
                    assert(cur[k] == prev[k] && cur[k - 1] == prev[k - 1]);
                } else {
                    assert(cur[k - 1] == prev.last());
                    assert(cur[k].0 == swapped(cur[k - 1].0, i as int, j as int));
                }
            }
            assert forall|k: int| 0 <= k < cur.len() implies (#[trigger] cur[k]).1 == conflict_count(cur[k].0) by {
                if k < prev.len() {
                    assert(cur[k] == prev[k]);
                }
            }
            assert forall|k: int| 0 <= k < cur.len() implies (#[trigger] cur[k]).1 + k <= conflict_count(start) by {
                if k < prev.len() {
                    assert(cur[k] == prev[k]);
                } else {
                    assert(prev.last() == prev[prev.len() - 1]);
                }
            }
            assert(cur[cur.len() - 1].1 + (cur.len() - 1) <= conflict_count(start));
        } else {
            let r = climb_reports(start, tries);
            assert(r == prev);
            assert(r[r.len() - 1].1 + (r.len() - 1) <= conflict_count(start));
        }
    }
}

impl HillClimbing {
    /// The board dimension.
    pub closed spec fn dimension(&self) -> nat {
        self.base.size as nat
    }

    /// The current placement.
    pub closed spec fn rows(&self) -> Seq<usize> {
        self.base.queen_rows@
    }

    /// The score of the current placement.
    pub closed spec fn score_now(&self) -> nat {
        self.current_score as nat
    }

    /// The number of moves since the last improvement.
    pub closed spec fn stalled(&self) -> nat {
        self.iterations_without_improvement as nat
    }

    /// The current placement is a permutation, and its score is known.
    pub open spec fn wf(&self) -> bool {
        &&& is_permutation(self.rows(), self.dimension())
        &&& size_fits(self.dimension())
        &&& self.score_now() == conflict_count(self.rows())
    }

    /// A search from a pseudorandom permutation of rows drawn from `rng`.
    pub fn new(size: usize, rng: rand::StdRng) -> (r: Self)
        requires
            size_fits(size as nat),
        ensures
            r.wf(),
            r.dimension() == size,
            r.stalled() == 0,
    {
        let mut rng = rng;
        let base = GenericChallengeState::new(size, &mut rng);
        let current_score = base.score();
        HillClimbing {
            base: base,
            rng: rng,
            current_score: current_score,
            iterations_without_improvement: 0,
        }
    }

    /// The current placement.
    pub fn queen_rows(&self) -> (r: &[usize])
        ensures
            r@ == self.rows(),
    {
        self.base.queen_rows.as_slice()
    }

    /// The score of the current placement.
    pub fn current_score(&self) -> (r: usize)
        ensures
            r == self.score_now(),
    {
        self.current_score
    }

    /// One move: exchange the rows of columns `queen_1` and `queen_2`, keep
    /// the exchange if it lowers the score, and otherwise undo it. Returns
    /// whether the move was kept.
    pub fn step(&mut self, queen_1: usize, queen_2: usize) -> (improved: bool)
        requires
            old(self).wf(),
            queen_1 < old(self).dimension(),
            queen_2 < old(self).dimension(),
            old(self).stalled() < usize::MAX,
        ensures
            final(self).wf(),
            final(self).dimension() == old(self).dimension(),
            improved == (conflict_count(swapped(old(self).rows(), queen_1 as int, queen_2 as int))
                < old(self).score_now()),
            improved ==> final(self).rows() == swapped(old(self).rows(), queen_1 as int, queen_2 as int)
                && final(self).stalled() == 0,
            !improved ==> final(self).rows() == old(self).rows() && final(self).stalled() == old(self).stalled() + 1,
            final(self).score_now() <= old(self).score_now(),
    {
        let ghost before = self.base.queen_rows@;
        proof {
            lemma_swap_permutation(before, self.base.size as nat, queen_1 as int, queen_2 as int);
        }
        self.base.swap_queens(queen_1, queen_2);
        let score = self.base.score();
        if score < self.current_score {
            self.iterations_without_improvement = 0;
            self.current_score = score;
            true
        } else {
            self.iterations_without_improvement = self.iterations_without_improvement + 1;
            self.base.swap_queens(queen_1, queen_2);
            assert(swapped(swapped(before, queen_1 as int, queen_2 as int), queen_1 as int, queen_2 as int) =~= before);
            false
        }
    }

    /// Reports the starting placement, then makes moves on pseudorandom
    /// pairs of columns until the score is zero or more than
    /// [`MAX_ITERATIONS_WITHOUT_IMPROVEMENT`] moves in a row failed,
    /// reporting each improvement with its score. The result, and the
    /// reports, are those of the climb through the pairs drawn.
    pub fn solve_with_callback<F: Fn(&[usize], usize)>(self, callback: F) -> (r: Solution)
        requires
            self.wf(),
            self.stalled() == 0,
            forall|a: &[usize], s: usize| callback.requires((a, s)),
        ensures
            is_permutation(r.queen_rows@, self.dimension()),
            r.score == conflict_count(r.queen_rows@),
            exists|tries: Seq<(usize, usize)>|
                #[trigger] climb_outcome(self.rows(), self.dimension(), tries, r.queen_rows@)
                    && r.reports@ == climb_reports(self.rows(), tries),
    {
        let mut this = self;
        let ghost start = this.rows();
        let ghost mut tries: Seq<(usize, usize)> = Seq::empty();
        callback(this.base.queen_rows.as_slice(), this.current_score);
        while this.current_score != 0 && this.iterations_without_improvement <= MAX_ITERATIONS_WITHOUT_IMPROVEMENT
            invariant
                this.wf(),
                this.dimension() == self.dimension(),
                start == self.rows(),
                (this.rows(), this.stalled()) == climb_state(start, tries),
                forall|k: int|
                    0 <= k < tries.len() ==> (#[trigger] tries[k]).0 < self.dimension() && tries[k].1 < self.dimension()
                        && tries[k].0 != tries[k].1,
                forall|k: int| 0 <= k < tries.len() ==> climbing(#[trigger] climb_state(start, tries.take(k))),
                forall|a: &[usize], s: usize| callback.requires((a, s)),
            decreases this.current_score, MAX_ITERATIONS_WITHOUT_IMPROVEMENT + 1 - this.iterations_without_improvement,
        {
            proof {
                if this.base.queen_rows@.len() < 2 {
                    lemma_short_score_zero(this.base.queen_rows@);
                }
            }
            let (queen_1, queen_2) = this.base.get_two_random_queens(&mut this.rng);
            let ghost before = tries;
            proof {
                tries = tries.push((queen_1, queen_2));
                assert(tries.drop_last() =~= before);
                assert forall|k: int| 0 <= k < tries.len() implies climbing(#[trigger] climb_state(start, tries.take(k))) by {
                    if k < before.len() {
                        assert(tries.take(k) =~= before.take(k));
                    } else {
                        assert(tries.take(k) =~= before);
                    }
                }
            }
            if this.step(queen_1, queen_2) {
                callback(this.base.queen_rows.as_slice(), this.current_score);
            }
        }
        let ghost final_rows = this.rows();
        let mut r = Solution::new(this.base.queen_rows, this.current_score);
        r.reports = Ghost(climb_reports(start, tries));
        proof {
            assert(climb_outcome(start, self.dimension(), tries, r.queen_rows@));
        }
        r
    }

    /// Runs the search with no reporting.
    pub fn solve(self) -> (r: Solution)
        requires
            self.wf(),
            self.stalled() == 0,
        ensures
            is_permutation(r.queen_rows@, self.dimension()),
            r.score == conflict_count(r.queen_rows@),
            exists|tries: Seq<(usize, usize)>| #[trigger] climb_outcome(self.rows(), self.dimension(), tries, r.queen_rows@),
    {
        self.solve_with_callback(|a: &[usize], s: usize| {})
    }
}

} // verus!
