use crate::board::{
    conflict_count, copy_rows, is_permutation, placements, lemma_short_score_zero, lemma_swap_permutation,
    size_fits, swap_rows, swapped, GenericChallengeState,
};
use crate::ranking::{best_indices, is_best_prefix};
use crate::solution::Solution;
use vstd::prelude::*;

verus! {

/// The placements `s` with column `i` exchanged with each of the columns
/// `i + 1 .. j`, in that order.
pub open spec fn row_prefix(s: Seq<usize>, i: int, j: int) -> Seq<Seq<usize>>
    decreases j - i,
{
    if j <= i + 1 {
        Seq::empty()
    } else {
        row_prefix(s, i, j - 1).push(swapped(s, i, j - 1))
    }
}

/// The placements `s` with a pair of columns exchanged, the first of the
/// pair below `i`: pairs in order of their first column, then of their second.
pub open spec fn swaps_before(s: Seq<usize>, i: int) -> Seq<Seq<usize>>
    decreases i,
{
    if i <= 0 {
        Seq::empty()
    } else {
        swaps_before(s, i - 1) + row_prefix(s, i - 1, s.len() as int)
    }
}

/// Every placement one exchange of two columns away from `s`, pairs taken in
/// lexicographic order.
pub open spec fn neighbors(s: Seq<usize>) -> Seq<Seq<usize>> {
    swaps_before(s, s.len() as int)
}

/// The neighbors of each placement of `states`, one state after the other.
pub open spec fn successors(states: Seq<Seq<usize>>) -> Seq<Seq<usize>>
    decreases states.len(),
{
    if states.len() == 0 {
        Seq::empty()
    } else {
        successors(states.drop_last()) + neighbors(states.last())
    }
}

/// The conflict score of each placement.
pub open spec fn score_seq(v: Seq<Seq<usize>>) -> Seq<usize> {
    Seq::new(v.len(), |i: int| conflict_count(v[i]) as usize)
}

/// `next` is the beam that follows `states` with width `k`: the `k` best of
/// all their successors by score, ties kept in the order of generation.
pub open spec fn is_next_beam(states: Seq<Seq<usize>>, k: nat, next: Seq<Seq<usize>>) -> bool {
    let succ = successors(states);
    exists|idx: Seq<usize>|
        is_best_prefix(score_seq(succ), k, idx) && next.len() == idx.len() && forall|t: int|
            0 <= t < idx.len() ==> #[trigger] next[t] == succ[idx[t] as int]
}

proof fn lemma_row_prefix_permutations(s: Seq<usize>, n: nat, i: int, j: int)
    requires
        is_permutation(s, n),
        0 <= i < n,
        j <= n,
    ensures
        forall|m: int| 0 <= m < row_prefix(s, i, j).len() ==> is_permutation(#[trigger] row_prefix(s, i, j)[m], n),
        j > i ==> row_prefix(s, i, j).len() == j - i - 1,
    decreases j - i,
{
    if j > i + 1 {
        lemma_row_prefix_permutations(s, n, i, j - 1);
        lemma_swap_permutation(s, n, i, j - 1);
    }
}

proof fn lemma_swaps_before_permutations(s: Seq<usize>, n: nat, i: int)
    requires
        is_permutation(s, n),
        i <= n,
    ensures
        forall|m: int| 0 <= m < swaps_before(s, i).len() ==> is_permutation(#[trigger] swaps_before(s, i)[m], n),
        i >= 1 && n >= 2 ==> swaps_before(s, i).len() >= 1,
    decreases i,
{
    if i > 0 {
        lemma_swaps_before_permutations(s, n, i - 1);
        lemma_row_prefix_permutations(s, n, i - 1, n as int);
        let a = swaps_before(s, i - 1);
        let b = row_prefix(s, i - 1, n as int);
        assert forall|m: int| 0 <= m < (a + b).len() implies is_permutation(#[trigger] (a + b)[m], n) by {
            if m >= a.len() {
                assert((a + b)[m] == b[m - a.len()]);
            }
        }
        if i == 1 && n >= 2 {
            assert(a.len() == 0);
        }
    }
}

proof fn lemma_successors_permutations(states: Seq<Seq<usize>>, n: nat)
    requires
        forall|t: int| 0 <= t < states.len() ==> is_permutation(#[trigger] states[t], n),
    ensures
        forall|m: int| 0 <= m < successors(states).len() ==> is_permutation(#[trigger] successors(states)[m], n),
        states.len() > 0 && n >= 2 ==> successors(states).len() >= 1,
    decreases states.len(),
{
    if states.len() > 0 {
        let init = states.drop_last();
        assert forall|t: int| 0 <= t < init.len() implies is_permutation(#[trigger] init[t], n) by {
            assert(init[t] == states[t]);
        }
        lemma_successors_permutations(init, n);
        lemma_swaps_before_permutations(states.last(), n, n as int);
        let a = successors(init);
        let b = neighbors(states.last());
        assert forall|m: int| 0 <= m < (a + b).len() implies is_permutation(#[trigger] (a + b)[m], n) by {
            if m >= a.len() {
                assert((a + b)[m] == b[m - a.len()]);
            }
        }
    }
}

/// Configuration of a beam search: how many states the beam keeps, and how
/// many rounds of successors it may generate before it stops.
pub struct LocalBeamSearchConfig {
    pub state_count: usize,
    pub max_rounds: usize,
}

/// A search that keeps the best `state_count` placements among all the
/// single-exchange successors of the current ones.
pub struct LocalBeamSearch {
    size: usize,
    state_count: usize,
    max_rounds: usize,
    rng: rand::StdRng,
}

/// All successors of `states`, in the order of [`successors`].
fn successors_of(states: &Vec<GenericChallengeState>, n: usize) -> (r: Vec<GenericChallengeState>)
    requires
        forall|t: int| 0 <= t < states@.len() ==> #[trigger] states@[t].queen_rows@.len() == n,
    ensures
        placements(r@) == successors(placements(states@)),
        forall|m: int| 0 <= m < r@.len() ==> #[trigger] r@[m].size == n,
{
    let mut succ: Vec<GenericChallengeState> = Vec::new();
    let ghost all = placements(states@);
    let mut t: usize = 0;
    while t < states.len()
        invariant
            all == placements(states@),
            t <= states@.len(),
            forall|q: int| 0 <= q < states@.len() ==> #[trigger] states@[q].queen_rows@.len() == n,
            placements(succ@) == successors(all.take(t as int)),
            forall|m: int| 0 <= m < succ@.len() ==> #[trigger] succ@[m].size == n,
        decreases states@.len() - t,
    {
        let ghost s = all[t as int];
        let ghost base = successors(all.take(t as int));
        let state = &states[t];
        assert(state.queen_rows@ == s);
        let mut i: usize = 0;
        while i < n
            invariant
                s == state.queen_rows@,
                s.len() == n,
                i <= n,
                placements(succ@) == base + swaps_before(s, i as int),
                forall|m: int| 0 <= m < succ@.len() ==> #[trigger] succ@[m].size == n,
            decreases n - i,
        {
            let mut j: usize = i + 1;
            assert(row_prefix(s, i as int, j as int) =~= Seq::<Seq<usize>>::empty());
            assert(placements(succ@) =~= base + swaps_before(s, i as int) + row_prefix(s, i as int, j as int));
            while j < n
                invariant
                    s == state.queen_rows@,
                    s.len() == n,
                    i < n,
                    i + 1 <= j <= n,
                    placements(succ@) == base + swaps_before(s, i as int) + row_prefix(s, i as int, j as int),
                    forall|m: int| 0 <= m < succ@.len() ==> #[trigger] succ@[m].size == n,
                decreases n - j,
            {
                let mut rows = copy_rows(&state.queen_rows);
                swap_rows(&mut rows, i, j);
                let ghost before = succ@;
                succ.push(GenericChallengeState { size: n, queen_rows: rows });
                assert(placements(succ@) =~= placements(before).push(swapped(s, i as int, j as int)));
                assert(placements(succ@) =~= base + swaps_before(s, i as int) + row_prefix(s, i as int, j + 1));
                j = j + 1;
            }
            assert(swaps_before(s, i + 1) == swaps_before(s, i as int) + row_prefix(s, i as int, n as int));
            assert(placements(succ@) =~= base + swaps_before(s, i + 1));
            i = i + 1;
        }
        assert(all.take(t + 1).drop_last() =~= all.take(t as int));
        assert(all.take(t + 1).last() == s);
        assert(neighbors(s) == swaps_before(s, n as int));
        t = t + 1;
    }
    assert(all.take(states@.len() as int) =~= all);
    succ
}

/// The beam that follows `states`: the `k` best of their successors.
pub fn next_beam(states: &Vec<GenericChallengeState>, n: usize, k: usize) -> (r: Vec<GenericChallengeState>)
    requires
        size_fits(n as nat),
        forall|t: int| 0 <= t < states@.len() ==> is_permutation(#[trigger] states@[t].queen_rows@, n as nat),
    ensures
        is_next_beam(placements(states@), k as nat, placements(r@)),
        forall|t: int| 0 <= t < r@.len() ==> is_permutation(#[trigger] r@[t].queen_rows@, n as nat),
        forall|t: int| 0 <= t < r@.len() ==> #[trigger] r@[t].size == n,
        r@.len() <= k,
        states@.len() > 0 && k > 0 && n >= 2 ==> r@.len() >= 1,
{
    let succ = successors_of(states, n);
    let ghost sv = placements(succ@);
    proof {
        let st = placements(states@);
        assert forall|t: int| 0 <= t < st.len() implies is_permutation(#[trigger] st[t], n as nat) by {
            assert(st[t] == states@[t].queen_rows@);
        }
        lemma_successors_permutations(st, n as nat);
    }
    let mut scores: Vec<usize> = Vec::new();
    let mut m: usize = 0;
    while m < succ.len()
        invariant
            sv == placements(succ@),
            size_fits(n as nat),
            forall|q: int| 0 <= q < sv.len() ==> is_permutation(#[trigger] sv[q], n as nat),
            m <= succ@.len(),
            scores@ == score_seq(sv).take(m as int),
        decreases succ@.len() - m,
    {
        assert(sv[m as int] == succ@[m as int].queen_rows@);
        let sc = succ[m].score();
        assert(scores@.push(sc) =~= score_seq(sv).take(m + 1));
        scores.push(sc);
        m = m + 1;
    }
    assert(scores@ =~= score_seq(sv));
    let idx = best_indices(&scores, k);
    let mut next: Vec<GenericChallengeState> = Vec::new();
    let mut t: usize = 0;
    while t < idx.len()
        invariant
            sv == placements(succ@),
            forall|q: int| 0 <= q < sv.len() ==> is_permutation(#[trigger] sv[q], n as nat),
            forall|q: int| 0 <= q < succ@.len() ==> #[trigger] succ@[q].size == n,
            is_best_prefix(scores@, k as nat, idx@),
            scores@ == score_seq(sv),
            t <= idx@.len(),
            next@.len() == t,
            forall|q: int| 0 <= q < t ==> #[trigger] placements(next@)[q] == sv[idx@[q] as int],
            forall|q: int| 0 <= q < t ==> #[trigger] next@[q].size == n,
        decreases idx@.len() - t,
    {
        let chosen = &succ[idx[t]];
        assert(sv[idx@[t as int] as int] == chosen.queen_rows@);
        let rows = copy_rows(&chosen.queen_rows);
        let ghost before = next@;
        next.push(GenericChallengeState { size: n, queen_rows: rows });
        assert forall|q: int| 0 <= q < t + 1 implies #[trigger] placements(next@)[q] == sv[idx@[q] as int] by {
            if q < t {
                assert(placements(next@)[q] == placements(before)[q]);
            }
        }
        t = t + 1;
    }
    proof {
        let nv = placements(next@);
        assert forall|q: int| 0 <= q < next@.len() implies is_permutation(#[trigger] next@[q].queen_rows@, n as nat) by {
            assert(nv[q] == next@[q].queen_rows@);
        }
        assert forall|q: int| 0 <= q < idx@.len() implies #[trigger] nv[q] == sv[idx@[q] as int] by {}
    }
    next
}

proof fn lemma_row_prefix_shape(s: Seq<usize>, i: int, j: int)
    requires
        0 <= i < s.len(),
        j <= s.len(),
    ensures
        row_prefix(s, i, j).len() <= if j <= i { 0 } else { j - i },
        row_prefix(s, i, j).len() <= s.len(),
        forall|m: int| 0 <= m < row_prefix(s, i, j).len() ==> (#[trigger] row_prefix(s, i, j)[m]).len() == s.len(),
    decreases j - i,
{
    if j > i + 1 {
        lemma_row_prefix_shape(s, i, j - 1);
    }
}

/// The neighbors of `s` are placements of its length, at most `n` of them
/// for each of the first `i` columns.
proof fn lemma_neighbors_shape(s: Seq<usize>, i: int)
    requires
        i <= s.len(),
    ensures
        swaps_before(s, i).len() <= if i < 0 { 0 } else { i * s.len() },
        forall|m: int| 0 <= m < swaps_before(s, i).len() ==> (#[trigger] swaps_before(s, i)[m]).len() == s.len(),
        forall|m: int|
            0 <= m < swaps_before(s, i).len() ==> conflict_count(#[trigger] swaps_before(s, i)[m]) <= s.len() * s.len(),
    decreases i,
{
    if i > 0 {
        lemma_neighbors_shape(s, i - 1);
        lemma_row_prefix_shape(s, i - 1, s.len() as int);
        let a = swaps_before(s, i - 1);
        let b = row_prefix(s, i - 1, s.len() as int);
        assert((i - 1) * s.len() + s.len() == i * s.len()) by (nonlinear_arith);
        assert forall|m: int| 0 <= m < (a + b).len() implies (#[trigger] (a + b)[m]).len() == s.len() by {
            if m >= a.len() {
                assert((a + b)[m] == b[m - a.len()]);
            }
        }
        assert forall|m: int| 0 <= m < (a + b).len() implies conflict_count(#[trigger] (a + b)[m]) <= s.len() * s.len() by {
            crate::board::lemma_conflicts_bound((a + b)[m], s.len() as int, s.len() as int);
        }
    } else {
        assert forall|m: int| 0 <= m < swaps_before(s, i).len() implies conflict_count(#[trigger] swaps_before(s, i)[m]) <= s.len() * s.len() by {}
    }
}

/// With a beam of one state, a round moves to the best-scoring neighbor: the
/// next state is one of the placements one exchange away, no neighbor scores
/// lower, and every neighbor listed before it scores strictly higher.
pub proof fn lemma_single_beam_is_steepest_descent(s: Seq<usize>, next: Seq<Seq<usize>>)
    requires
        is_next_beam(seq![s], 1, next),
        neighbors(s).len() > 0,
        size_fits(s.len() as nat),
    ensures
        next.len() == 1,
        exists|m: int|
            0 <= m < neighbors(s).len() && next[0] == #[trigger] neighbors(s)[m] && (forall|m2: int|
                0 <= m2 < m ==> conflict_count(#[trigger] neighbors(s)[m2]) > conflict_count(next[0])),
        forall|m: int| 0 <= m < neighbors(s).len() ==> conflict_count(next[0]) <= conflict_count(#[trigger] neighbors(s)[m]),
{
    lemma_neighbors_shape(s, s.len() as int);
    let one = seq![s];
    assert(one.drop_last() =~= Seq::<Seq<usize>>::empty());
    assert(successors(Seq::<Seq<usize>>::empty()) == Seq::<Seq<usize>>::empty());
    assert(one.last() == s);
    assert(successors(one) == successors(one.drop_last()) + neighbors(one.last()));
    assert(successors(one) =~= neighbors(s));
    let succ = neighbors(s);
    let sc = score_seq(succ);
    let idx = choose|idx: Seq<usize>|
        is_best_prefix(score_seq(successors(one)), 1, idx) && next.len() == idx.len() && forall|t: int|
            0 <= t < idx.len() ==> #[trigger] next[t] == successors(one)[idx[t] as int];
    let m = idx[0] as int;
    assert(next[0] == succ[m]);
    assert forall|m2: int| 0 <= m2 < succ.len() implies conflict_count(next[0]) <= conflict_count(#[trigger] succ[m2]) by {
        if m2 != m {
            assert(!idx.contains(m2 as usize)) by {
                if idx.contains(m2 as usize) {
                    let w = choose|w: int| 0 <= w < idx.len() && idx[w] == m2 as usize;
                    assert(w == 0);
                }
            }
            assert(crate::ranking::ranks_before(sc, idx[0] as int, m2));
        }
    }
    assert forall|m2: int| 0 <= m2 < m implies conflict_count(#[trigger] succ[m2]) > conflict_count(next[0]) by {
        assert(!idx.contains(m2 as usize)) by {
            if idx.contains(m2 as usize) {
                let w = choose|w: int| 0 <= w < idx.len() && idx[w] == m2 as usize;
                assert(w == 0);
            }
        }
        assert(crate::ranking::ranks_before(sc, idx[0] as int, m2));
    }
}

/// `q` is the first state of `beam` with score zero.
pub open spec fn first_zero(beam: Seq<Seq<usize>>, q: int) -> bool {
    &&& 0 <= q < beam.len()
    &&& conflict_count(beam[q]) == 0
    &&& forall|p: int| 0 <= p < q ==> conflict_count(#[trigger] beam[p]) != 0
}

/// No state of `beam` has score zero.
pub open spec fn no_zero(beam: Seq<Seq<usize>>) -> bool {
    forall|p: int| 0 <= p < beam.len() ==> conflict_count(#[trigger] beam[p]) != 0
}

/// `rows`, with score `score`, is a state of `beam` with its lowest score.
pub open spec fn lowest_in(beam: Seq<Seq<usize>>, rows: Seq<usize>, score: nat) -> bool {
    &&& beam.contains(rows)
    &&& score == conflict_count(rows)
    &&& forall|p: int| 0 <= p < beam.len() ==> score <= conflict_count(#[trigger] beam[p])
}

/// A beam search of width `k` allowed `max_rounds` rounds went through
/// `beams`, each the [`is_next_beam`] of the one before, none but the last
/// holding a state of score zero; and it returned `rows` with `score`: the
/// first state of score zero of the last beam, or, where that beam has none
/// and no round is left, one of its states with the lowest score.
pub open spec fn beam_outcome(beams: Seq<Seq<Seq<usize>>>, k: nat, max_rounds: nat, rows: Seq<usize>, score: nat) -> bool {
    &&& 1 <= beams.len() <= max_rounds + 1
    &&& forall|t: int| 0 <= t < beams.len() - 1 ==> is_next_beam(#[trigger] beams[t], k, beams[t + 1])
    &&& forall|t: int| 0 <= t < beams.len() - 1 ==> no_zero(#[trigger] beams[t])
    &&& {
        ||| (exists|q: int| first_zero(beams.last(), q) && #[trigger] beams.last()[q] == rows) && score == 0
        ||| beams.len() == max_rounds + 1 && no_zero(beams.last()) && lowest_in(beams.last(), rows, score)
    }
}

/// The first state of a beam after a round is the best of it: no
/// successor of the previous beam scores lower.
pub proof fn lemma_next_beam_first_is_best(states: Seq<Seq<usize>>, k: nat, next: Seq<Seq<usize>>, n: nat)
    requires
        is_next_beam(states, k, next),
        next.len() > 0,
        size_fits(n),
        successors(states).len() <= usize::MAX,
        forall|t: int| 0 <= t < states.len() ==> is_permutation(#[trigger] states[t], n),
    ensures
        forall|m: int| 0 <= m < successors(states).len() ==> conflict_count(next[0]) <= conflict_count(#[trigger] successors(states)[m]),
        forall|q: int| 0 <= q < next.len() ==> conflict_count(next[0]) <= conflict_count(#[trigger] next[q]),
{
    let succ = successors(states);
    let sc = score_seq(succ);
    lemma_successors_permutations(states, n);
    let idx = choose|idx: Seq<usize>|
        is_best_prefix(score_seq(succ), k, idx) && next.len() == idx.len() && forall|t: int|
            0 <= t < idx.len() ==> #[trigger] next[t] == succ[idx[t] as int];
    assert(next[0] == succ[idx[0] as int]);
    assert forall|m: int| 0 <= m < succ.len() implies conflict_count(next[0]) <= conflict_count(#[trigger] succ[m]) by {
        crate::ranking::lemma_first_is_lowest(sc, k, idx, m);
        crate::board::lemma_conflicts_bound(succ[m], n as int, n as int);
        crate::board::lemma_conflicts_bound(succ[idx[0] as int], n as int, n as int);
    }
    assert forall|q: int| 0 <= q < next.len() implies conflict_count(next[0]) <= conflict_count(#[trigger] next[q]) by {
        assert(next[q] == succ[idx[q] as int]);
    }
}

/// What a beam search that went through `beams` and returned `rows`
/// reported: the first state of each beam with its score, and, where it
/// stopped at a later state of score zero, that state.
pub open spec fn beam_reports_ok(beams: Seq<Seq<Seq<usize>>>, reports: Seq<(Seq<usize>, nat)>, rows: Seq<usize>) -> bool {
    &&& reports.len() == beams.len() || (reports.len() == beams.len() + 1 && reports.last() == (rows, 0nat))
    &&& forall|t: int| 0 <= t < beams.len() ==> #[trigger] reports[t] == (beams[t][0], conflict_count(beams[t][0]))
}

/// Runs rounds of beam search of width `k` from `states`: each round reports
/// the first state and any state of score zero, stops at the first state of
/// score zero, and otherwise moves to [`next_beam`]; after `max_rounds`
/// rounds of successors a state of the last beam with the lowest score, the
/// first such, is returned.
pub fn search_from<F: Fn(&[usize], usize)>(
    start: Vec<GenericChallengeState>,
    n: usize,
    k: usize,
    max_rounds: usize,
    callback: &F,
) -> (r: Solution)
    requires
        size_fits(n as nat),
        k > 0,
        start@.len() >= 1,
        forall|t: int| 0 <= t < start@.len() ==> is_permutation(#[trigger] start@[t].queen_rows@, n as nat),
        forall|a: &[usize], s: usize| callback.requires((a, s)),
    ensures
        r.score == conflict_count(r.queen_rows@),
        is_permutation(r.queen_rows@, n as nat),
        exists|beams: Seq<Seq<Seq<usize>>>|
            #[trigger] beam_outcome(beams, k as nat, max_rounds as nat, r.queen_rows@, r.score as nat) && beams[0]
                == placements(start@) && beam_reports_ok(beams, r.reports@, r.queen_rows@),
{
    let ghost first = placements(start@);
    let mut states = start;
    let ghost mut beams: Seq<Seq<Seq<usize>>> = seq![first];
    let ghost mut reports: Seq<(Seq<usize>, nat)> = Seq::empty();
    let mut rounds: usize = 0;
    loop
        invariant
            k > 0,
            size_fits(n as nat),
            rounds <= max_rounds,
            states@.len() >= 1,
            forall|t: int| 0 <= t < states@.len() ==> is_permutation(#[trigger] states@[t].queen_rows@, n as nat),
            forall|a: &[usize], s: usize| callback.requires((a, s)),
            beams.len() == rounds + 1,
            beams[0] == first,
            first == placements(start@),
            beams.last() == placements(states@),
            forall|t: int| 0 <= t < beams.len() - 1 ==> is_next_beam(#[trigger] beams[t], k as nat, beams[t + 1]),
            forall|t: int| 0 <= t < beams.len() - 1 ==> no_zero(#[trigger] beams[t]),
            reports.len() + 1 == beams.len(),
            forall|t: int| 0 <= t < reports.len() ==> #[trigger] reports[t] == (beams[t][0], conflict_count(beams[t][0])),
        decreases max_rounds - rounds,
    {
        let ghost cur = placements(states@);
        let mut t: usize = 0;
        let mut best: usize = 0;
        let mut best_score: usize = 0;
        while t < states.len()
            invariant
                size_fits(n as nat),
                t <= states@.len(),
                states@.len() >= 1,
                cur == placements(states@),
                forall|q: int| 0 <= q < states@.len() ==> is_permutation(#[trigger] states@[q].queen_rows@, n as nat),
                forall|a: &[usize], s: usize| callback.requires((a, s)),
                t > 0 ==> best < t && best_score == conflict_count(states@[best as int].queen_rows@),
                forall|q: int| 0 <= q < t ==> best_score <= conflict_count(#[trigger] cur[q]),
                forall|q: int| 0 <= q < t ==> conflict_count(#[trigger] cur[q]) != 0,
                k > 0,
                rounds <= max_rounds,
                beams.len() == rounds + 1,
                beams[0] == first,
                first == placements(start@),
                beams.last() == cur,
                forall|t2: int| 0 <= t2 < beams.len() - 1 ==> is_next_beam(#[trigger] beams[t2], k as nat, beams[t2 + 1]),
                forall|t2: int| 0 <= t2 < beams.len() - 1 ==> no_zero(#[trigger] beams[t2]),
                t == 0 ==> reports.len() + 1 == beams.len(),
                t > 0 ==> reports.len() == beams.len(),
                forall|t2: int| 0 <= t2 < beams.len() - 1 ==> #[trigger] reports[t2] == (beams[t2][0], conflict_count(beams[t2][0])),
                t > 0 ==> reports[beams.len() - 1] == (cur[0], conflict_count(cur[0])),
            decreases states@.len() - t,
        {
            let state = &states[t];
            assert(cur[t as int] == state.queen_rows@);
            let score = state.score();
            if t == 0 || score == 0 {
                callback(state.queen_rows.as_slice(), score);
                proof {
                    reports = reports.push((cur[t as int], score as nat));
                }
            }
            if score == 0 {
                let rows = copy_rows(&state.queen_rows);
                proof {
                    assert(first_zero(beams.last(), t as int));
                    assert(beam_outcome(beams, k as nat, max_rounds as nat, rows@, 0));
                }
                let mut r = Solution::new(rows, 0);
                r.reports = Ghost(reports);
                assert(beam_outcome(beams, k as nat, max_rounds as nat, r.queen_rows@, r.score as nat) && beams[0] == first);
                assert(beam_reports_ok(beams, r.reports@, r.queen_rows@));
                return r;
            }
            if t == 0 || score < best_score {
                best = t;
                best_score = score;
            }
            t = t + 1;
        }
        if rounds == max_rounds {
            let rows = copy_rows(&states[best].queen_rows);
            proof {
                assert(cur[best as int] == rows@);
                assert(lowest_in(beams.last(), rows@, best_score as nat));
                assert(beam_outcome(beams, k as nat, max_rounds as nat, rows@, best_score as nat));
            }
            let mut r = Solution::new(rows, best_score);
            r.reports = Ghost(reports);
            assert(beam_outcome(beams, k as nat, max_rounds as nat, r.queen_rows@, r.score as nat) && beams[0] == first);
            assert(beam_reports_ok(beams, r.reports@, r.queen_rows@));
            return r;
        }
        proof {
            if n < 2 {
                lemma_short_score_zero(states@[0].queen_rows@);
                assert(cur[0] == states@[0].queen_rows@);
            }
        }
        let next = next_beam(&states, n, k);
        proof {
            let old_beams = beams;
            beams = beams.push(placements(next@));
            assert forall|t2: int| 0 <= t2 < beams.len() - 1 implies is_next_beam(#[trigger] beams[t2], k as nat, beams[t2 + 1]) by {
                if t2 < old_beams.len() - 1 {
                    assert(beams[t2] == old_beams[t2] && beams[t2 + 1] == old_beams[t2 + 1]);
                } else {
                    assert(beams[t2] == cur && beams[t2 + 1] == placements(next@));
                }
            }
            assert forall|t2: int| 0 <= t2 < beams.len() - 1 implies no_zero(#[trigger] beams[t2]) by {
                if t2 < old_beams.len() - 1 {
                    assert(beams[t2] == old_beams[t2]);
                } else {
                    assert(beams[t2] == cur);
                }
            }
            assert forall|t2: int| 0 <= t2 < reports.len() implies #[trigger] reports[t2] == (beams[t2][0], conflict_count(beams[t2][0])) by {
                assert(beams[t2] == old_beams[t2]);
            }
        }
        states = next;
        rounds = rounds + 1;
    }
}

impl LocalBeamSearch {
    /// The board dimension.
    pub closed spec fn dimension(&self) -> nat {
        self.size as nat
    }

    /// How many rounds of successors the search may generate.
    pub closed spec fn rounds(&self) -> nat {
        self.max_rounds as nat
    }

    /// How many states the beam keeps.
    pub closed spec fn width(&self) -> nat {
        self.state_count as nat
    }

    /// A beam search on a board of dimension `size`, drawing its starting
    /// states from `rng`.
    pub fn new(size: usize, config: LocalBeamSearchConfig, rng: rand::StdRng) -> (r: Self)
        ensures
            r.dimension() == size,
            r.width() == config.state_count,
            r.rounds() == config.max_rounds,
    {
        LocalBeamSearch { size: size, state_count: config.state_count, max_rounds: config.max_rounds, rng: rng }
    }

    /// Runs the search. Each round reports the first state of the beam and
    /// any state of score zero, stops at the first state of score zero, and
    /// otherwise moves to [`next_beam`]. After `max_rounds` rounds of
    /// successors the best state of the beam is returned. A beam of width
    /// zero gives an empty placement of score zero.
    pub fn solve_with_callback<F: Fn(&[usize], usize)>(self, callback: F) -> (r: Solution)
        requires
            size_fits(self.dimension()),
            forall|a: &[usize], s: usize| callback.requires((a, s)),
        ensures
            r.score == conflict_count(r.queen_rows@),
            self.width() == 0 ==> r.queen_rows@.len() == 0,
            self.width() > 0 ==> is_permutation(r.queen_rows@, self.dimension()),
            self.width() == 0 ==> r.reports@.len() == 0,
            self.width() > 0 ==> exists|beams: Seq<Seq<Seq<usize>>>|
                #[trigger] beam_outcome(beams, self.width(), self.rounds(), r.queen_rows@, r.score as nat)
                    && beams[0].len() == self.width() && (forall|q: int|
                    0 <= q < beams[0].len() ==> is_permutation(#[trigger] beams[0][q], self.dimension()))
                    && beam_reports_ok(beams, r.reports@, r.queen_rows@),
    {
        let mut this = self;
        let n = this.size;
        let k = this.state_count;
        if k == 0 {
            return Solution::new(Vec::new(), 0);
        }
        let mut states: Vec<GenericChallengeState> = Vec::new();
        let mut c: usize = 0;
        while c < k
            invariant
                c <= k,
                states@.len() == c,
                this.size == n,
                this.state_count == k,
                this.max_rounds == self.max_rounds,
                n == self.size,
                k == self.state_count,
                forall|t: int| 0 <= t < states@.len() ==> is_permutation(#[trigger] states@[t].queen_rows@, n as nat),
            decreases k - c,
        {
            let st = GenericChallengeState::new(n, &mut this.rng);
            states.push(st);
            c = c + 1;
        }
        let ghost start = placements(states@);
        let r = search_from(states, n, k, this.max_rounds, &callback);
        proof {
            let beams = choose|beams: Seq<Seq<Seq<usize>>>|
                #[trigger] beam_outcome(beams, k as nat, self.max_rounds as nat, r.queen_rows@, r.score as nat) && beams[0]
                    == start && beam_reports_ok(beams, r.reports@, r.queen_rows@);
            assert forall|q: int| 0 <= q < beams[0].len() implies is_permutation(#[trigger] beams[0][q], self.dimension()) by {
                assert(start[q] == states@[q].queen_rows@);
            }
            assert(beam_outcome(beams, self.width(), self.rounds(), r.queen_rows@, r.score as nat));
            assert(beams[0].len() == self.width());
        }
        r
    }

    /// Runs the search with no reporting.
    pub fn solve(self) -> (r: Solution)
        requires
            size_fits(self.dimension()),
        ensures
            r.score == conflict_count(r.queen_rows@),
            self.width() == 0 ==> r.queen_rows@.len() == 0,
            self.width() > 0 ==> is_permutation(r.queen_rows@, self.dimension()),
    {
        self.solve_with_callback(|a: &[usize], s: usize| {})
    }
}

} // verus!
