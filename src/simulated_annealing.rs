use crate::board::{
    conflict_count, is_permutation, lemma_short_score_zero, lemma_swap_permutation, size_fits,
    swapped, GenericChallengeState,
};
use crate::hill_climbing::MAX_ITERATIONS_WITHOUT_IMPROVEMENT;
use crate::rng::chance;
use crate::solution::Solution;
use vstd::prelude::*;

verus! {

/// The integer side of simulated annealing: moves like hill climbing, but a
/// move that does not improve is kept with a chance that the caller computes
/// from its temperature. The caller owns the temperature schedule and drives
/// the loop: [`SimulatedAnnealing::propose`], then
/// [`SimulatedAnnealing::resolve`], while [`SimulatedAnnealing::is_running`].
pub struct SimulatedAnnealing {
    base: GenericChallengeState,
    rng: rand::StdRng,
    score: usize,
    best_score: usize,
    iterations_without_improvement: usize,
    pending: Option<(usize, usize, usize)>,
}

impl SimulatedAnnealing {
    /// The board dimension.
    pub closed spec fn dimension(&self) -> nat {
        self.base.size as nat
    }

    /// The current placement; while a move is pending, the placement with
    /// that move applied.
    pub closed spec fn rows(&self) -> Seq<usize> {
        self.base.queen_rows@
    }

    /// The score of the last committed placement.
    pub closed spec fn score_now(&self) -> nat {
        self.score as nat
    }

    /// The lowest score committed so far.
    pub closed spec fn best(&self) -> nat {
        self.best_score as nat
    }

    /// The number of moves since the last accepted one.
    pub closed spec fn stalled(&self) -> nat {
        self.iterations_without_improvement as nat
    }

    /// The move proposed and not yet resolved: the two columns and the score
    /// of the placement with them exchanged.
    pub closed spec fn pending_move(&self) -> Option<(usize, usize, usize)> {
        self.pending
    }

    /// The placement is a permutation, the best score is at most the
    /// current one, and the scores of the committed placement and of a
    /// pending move are known.
    pub open spec fn wf(&self) -> bool {
        &&& is_permutation(self.rows(), self.dimension())
        &&& size_fits(self.dimension())
        &&& self.best() <= self.score_now()
        &&& match self.pending_move() {
            None => self.score_now() == conflict_count(self.rows()),
            Some((i, j, s)) => {
                &&& i < self.dimension()
                &&& j < self.dimension()
                &&& s == conflict_count(self.rows())
                &&& self.score_now() == conflict_count(swapped(self.rows(), i as int, j as int))
            },
        }
    }

    /// An annealing run from a pseudorandom permutation of rows drawn from `rng`.
    pub fn new(size: usize, rng: rand::StdRng) -> (r: Self)
        requires
            size_fits(size as nat),
        ensures
            r.wf(),
            r.dimension() == size,
            r.pending_move() is None,
            r.stalled() == 0,
            r.best() == r.score_now(),
    {
        let mut rng = rng;
        let base = GenericChallengeState::new(size, &mut rng);
        let score = base.score();
        SimulatedAnnealing {
            base: base,
            rng: rng,
            score: score,
            best_score: score,
            iterations_without_improvement: 0,
            pending: None,
        }
    }

    /// The current placement.
    pub fn queen_rows(&self) -> (r: &[usize])
        ensures
            r@ == self.rows(),
    {
        self.base.queen_rows.as_slice()
    }

    /// The score of the last committed placement.
    pub fn current_score(&self) -> (r: usize)
        ensures
            r == self.score_now(),
    {
        self.score
    }

    /// The lowest score committed so far.
    pub fn best_score(&self) -> (r: usize)
        ensures
            r == self.best(),
    {
        self.best_score
    }

    /// Whether the run goes on: the score is not zero, and either the system
    /// is not `cooled` yet or at most [`MAX_ITERATIONS_WITHOUT_IMPROVEMENT`]
    /// moves in a row were refused.
    pub fn is_running(&self, cooled: bool) -> (r: bool)
        ensures
            r == (self.score_now() != 0 && (!cooled || self.stalled() <= MAX_ITERATIONS_WITHOUT_IMPROVEMENT)),
    {
        self.score != 0 && (!cooled || self.iterations_without_improvement <= MAX_ITERATIONS_WITHOUT_IMPROVEMENT)
    }

    /// Exchanges two pseudorandom distinct columns and returns the score of
    /// the placement so obtained; the move stays pending until resolved.
    pub fn propose(&mut self) -> (r: usize)
        requires
            old(self).wf(),
            old(self).pending_move() is None,
            old(self).score_now() != 0,
        ensures
            final(self).wf(),
            final(self).dimension() == old(self).dimension(),
            final(self).score_now() == old(self).score_now(),
            final(self).best() == old(self).best(),
            final(self).stalled() == old(self).stalled(),
            final(self).pending_move() matches Some((i, j, s)) && s == r && i != j
                && final(self).rows() == swapped(old(self).rows(), i as int, j as int),
    {
        proof {
            if self.base.queen_rows@.len() < 2 {
                lemma_short_score_zero(self.base.queen_rows@);
            }
        }
        let (queen_1, queen_2) = self.base.get_two_random_queens(&mut self.rng);
        let ghost before = self.base.queen_rows@;
        proof {
            lemma_swap_permutation(before, self.base.size as nat, queen_1 as int, queen_2 as int);
        }
        self.base.swap_queens(queen_1, queen_2);
        let new_score = self.base.score();
        assert(swapped(swapped(before, queen_1 as int, queen_2 as int), queen_1 as int, queen_2 as int) =~= before);
        self.pending = Some((queen_1, queen_2, new_score));
        new_score
    }

    /// Settles the pending move. It is kept if it lowers the score; otherwise
    /// it is kept only where an event of chance `accept_chance` (in units of
    /// 2^-32, 0 meaning never) happens. Returns whether it was kept.
    pub fn resolve(&mut self, accept_chance: u64) -> (accepted: bool)
        requires
            old(self).wf(),
            old(self).pending_move() is Some,
            old(self).stalled() < usize::MAX,
        ensures
            final(self).wf(),
            final(self).dimension() == old(self).dimension(),
            final(self).pending_move() is None,
            old(self).pending_move() matches Some((i, j, s)) && {
                &&& s < old(self).score_now() ==> accepted
                &&& accept_chance == 0 && s >= old(self).score_now() ==> !accepted
                &&& accepted ==> final(self).rows() == old(self).rows() && final(self).score_now() == s
                    && final(self).stalled() == 0
                &&& !accepted ==> final(self).rows() == swapped(old(self).rows(), i as int, j as int)
                    && final(self).score_now() == old(self).score_now()
                    && final(self).stalled() == old(self).stalled() + 1
                &&& final(self).best() == if s < old(self).best() && accepted { s as nat } else { old(self).best() }
            },
            final(self).best() <= old(self).best(),
    {
        let (queen_1, queen_2, new_score) = match self.pending {
            Some(m) => m,
            None => (0, 0, 0),
        };
        self.pending = None;
        let accepted = if new_score < self.score {
            true
        } else if accept_chance > 0 {
            chance(&mut self.rng, accept_chance)
        } else {
            false
        };
        if accepted {
            self.score = new_score;
            if new_score < self.best_score {
                self.best_score = new_score;
            }
            self.iterations_without_improvement = 0;
        } else {
            self.iterations_without_improvement = self.iterations_without_improvement + 1;
            let ghost before = self.base.queen_rows@;
            proof {
                lemma_swap_permutation(before, self.base.size as nat, queen_1 as int, queen_2 as int);
            }
            self.base.swap_queens(queen_1, queen_2);
        }
        accepted
    }

    /// The committed placement and its score.
    pub fn into_solution(self) -> (r: Solution)
        requires
            self.wf(),
            self.pending_move() is None,
        ensures
            is_permutation(r.queen_rows@, self.dimension()),
            r.queen_rows@ == self.rows(),
            r.score == self.score_now(),
            r.score == conflict_count(r.queen_rows@),
    {
        Solution::new(self.base.queen_rows, self.score)
    }
}

} // verus!
