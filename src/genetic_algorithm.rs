use crate::board::{
    conflict_count, copy_rows, is_permutation, lemma_short_score_zero, placements, rows_below, size_fits,
    swap_rows, swapped, GenericChallengeState,
};
use crate::local_beam_search::{lowest_in, no_zero, score_seq};
use crate::ranking::{best_indices, is_best_prefix, lemma_first_is_lowest};
use crate::rng::{chance, next_u32, random_below, CERTAIN};
use crate::board::random_distinct_pair;
use crate::solution::Solution;
use vstd::prelude::*;

verus! {

/// The number of individuals copied unchanged into the next generation out
/// of `len`, for an elite fraction `elitism` in units of 2^-32: the smallest
/// count whose share of the generation reaches the fraction, at most `len`.
pub open spec fn elite_len(elitism: u64, len: nat) -> nat {
    let p = elitism as int * len as int;
    if p >= CERTAIN as int * len as int {
        len
    } else {
        ((p + CERTAIN as int - 1) / (CERTAIN as int)) as nat
    }
}

/// What the search of individual `i` weighs in selection: how far its score
/// is below the worst one.
pub open spec fn inverse_fitness(scores: Seq<usize>, max_score: nat, i: int) -> nat {
    (max_score - scores[i]) as nat
}

/// The summed inverse fitness of individuals `i ..` of the generation.
pub open spec fn inverse_total(scores: Seq<usize>, max_score: nat, i: int) -> nat
    decreases scores.len() - i,
{
    if i >= scores.len() || i < 0 {
        0
    } else {
        inverse_fitness(scores, max_score, i) + inverse_total(scores, max_score, i + 1)
    }
}

/// The selection weight of individual `i`: its inverse fitness, or 1 for
/// every individual where all scores are equal.
pub open spec fn selection_weight(scores: Seq<usize>, max_score: nat, i: int) -> nat {
    if inverse_total(scores, max_score, 0) == 0 {
        1
    } else {
        inverse_fitness(scores, max_score, i)
    }
}

/// The summed selection weight of individuals `i ..`.
pub open spec fn weight_from(scores: Seq<usize>, max_score: nat, i: int) -> nat
    decreases scores.len() - i,
{
    if i >= scores.len() || i < 0 {
        0
    } else {
        selection_weight(scores, max_score, i) + weight_from(scores, max_score, i + 1)
    }
}

/// The point that a 32-bit `draw` picks on a line of length `total`.
pub open spec fn draw_target(draw: u32, total: nat) -> nat {
    (draw as nat * total) / CERTAIN as nat
}

/// `a` with its first `split` values taken from `b`.
pub open spec fn crossed(a: Seq<usize>, b: Seq<usize>, split: int) -> Seq<usize> {
    b.subrange(0, split) + a.subrange(split, a.len() as int)
}

/// The largest score, 0 for none.
pub open spec fn max_of(scores: Seq<usize>, i: int) -> nat
    decreases i,
{
    if i <= 0 {
        0
    } else {
        let m = max_of(scores, i - 1);
        if scores[i - 1] > m {
            scores[i - 1] as nat
        } else {
            m
        }
    }
}

proof fn lemma_max_of_bounds(scores: Seq<usize>, i: int)
    requires
        i <= scores.len(),
    ensures
        forall|j: int| 0 <= j < i ==> scores[j] <= max_of(scores, i),
        max_of(scores, i) <= usize::MAX,
    decreases i,
{
    if i > 0 {
        lemma_max_of_bounds(scores, i - 1);
    }
}

proof fn lemma_max_is_some(scores: Seq<usize>, i: int)
    requires
        0 < i <= scores.len(),
    ensures
        exists|j: int| 0 <= j < i && scores[j] == max_of(scores, i),
    decreases i,
{
    if i == 1 {
        assert(max_of(scores, 0) == 0);
        assert(scores[0] == max_of(scores, 1));
    } else {
        lemma_max_is_some(scores, i - 1);
        if scores[i - 1] > max_of(scores, i - 1) {
            assert(scores[i - 1] == max_of(scores, i));
        } else {
            let j = choose|j: int| 0 <= j < i - 1 && scores[j] == max_of(scores, i - 1);
            assert(scores[j] == max_of(scores, i));
        }
    }
}

proof fn lemma_inverse_total_bound(scores: Seq<usize>, max_score: nat, i: int)
    requires
        0 <= i <= scores.len(),
        forall|j: int| 0 <= j < scores.len() ==> scores[j] <= max_score,
    ensures
        inverse_total(scores, max_score, i) <= (scores.len() - i) * max_score,
    decreases scores.len() - i,
{
    if i < scores.len() {
        lemma_inverse_total_bound(scores, max_score, i + 1);
        assert((scores.len() - (i + 1)) * max_score + max_score == (scores.len() - i) * max_score)
            by (nonlinear_arith);
    }
}

proof fn lemma_weight_from_mono(scores: Seq<usize>, max_score: nat, i: int)
    requires
        0 <= i <= scores.len(),
    ensures
        forall|j: int| i <= j <= scores.len() ==> weight_from(scores, max_score, j) <= weight_from(scores, max_score, i),
        inverse_total(scores, max_score, 0) == 0 ==> weight_from(scores, max_score, i) == scores.len() - i,
        inverse_total(scores, max_score, 0) != 0 ==> weight_from(scores, max_score, i) == inverse_total(scores, max_score, i),
    decreases scores.len() - i,
{
    if i < scores.len() {
        lemma_weight_from_mono(scores, max_score, i + 1);
    }
}

/// Exchanges the first `split` values of `a` and `b`.
pub fn exchange_prefix(a: &mut Vec<usize>, b: &mut Vec<usize>, split: usize)
    requires
        split <= old(a)@.len(),
        split <= old(b)@.len(),
    ensures
        final(a)@ == crossed(old(a)@, old(b)@, split as int),
        final(b)@ == crossed(old(b)@, old(a)@, split as int),
{
    let ghost a0 = a@;
    let ghost b0 = b@;
    let mut j: usize = 0;
    while j < split
        invariant
            j <= split,
            split <= a0.len(),
            split <= b0.len(),
            a@.len() == a0.len(),
            b@.len() == b0.len(),
            forall|q: int| 0 <= q < j ==> #[trigger] a@[q] == b0[q],
            forall|q: int| 0 <= q < j ==> #[trigger] b@[q] == a0[q],
            forall|q: int| j <= q < a0.len() ==> #[trigger] a@[q] == a0[q],
            forall|q: int| j <= q < b0.len() ==> #[trigger] b@[q] == b0[q],
        decreases split - j,
    {
        let x = a[j];
        let y = b[j];
        a.set(j, y);
        b.set(j, x);
        j = j + 1;
    }
    assert(a@ =~= crossed(a0, b0, split as int));
    assert(b@ =~= crossed(b0, a0, split as int));
}

/// The number of elite individuals: see [`elite_len`].
pub fn elite_count(elitism: u64, len: usize) -> (r: usize)
    ensures
        r == elite_len(elitism, len as nat),
        r <= len,
{
    if elitism >= CERTAIN {
        proof {
            assert((elitism as int) * (len as int) >= (CERTAIN as int) * (len as int)) by (nonlinear_arith)
                requires
                    elitism >= CERTAIN,
            ;
        }
        return len;
    }
    proof {
        assert((elitism as int) * (len as int) <= 4294967296 * 18446744073709551615) by (nonlinear_arith)
            requires
                elitism < 4294967296,
                len as int <= 18446744073709551615,
        ;
    }
    let product: u128 = (elitism as u128) * (len as u128);
    let count = (product + (CERTAIN as u128 - 1)) / (CERTAIN as u128);
    proof {
        assert((elitism as int) * (len as int) < (CERTAIN as int) * (len as int) || len == 0) by (nonlinear_arith)
            requires
                elitism < CERTAIN,
        ;
        assert(count <= len) by (nonlinear_arith)
            requires
                count as int == (product as int + (CERTAIN as int - 1)) / (CERTAIN as int),
                product as int == elitism as int * len as int,
                elitism < CERTAIN,
                CERTAIN == 4294967296,
        ;
    }
    count as usize
}

/// The individual that a 32-bit `draw` selects, each with a chance in
/// proportion to its [`selection_weight`]: walking from the last individual
/// to the first and adding up weights, the first one at which the sum
/// passes the drawn point.
pub fn select_index(scores: &Vec<usize>, max_score: usize, total: usize, draw: u32) -> (r: usize)
    requires
        scores@.len() > 0,
        forall|j: int| 0 <= j < scores@.len() ==> scores@[j] <= max_score,
        total == inverse_total(scores@, max_score as nat, 0),
    ensures
        r < scores@.len(),
        weight_from(scores@, max_score as nat, r + 1) <= draw_target(
            draw,
            weight_from(scores@, max_score as nat, 0),
        ) < weight_from(scores@, max_score as nat, r as int),
{
    let n = scores.len();
    let whole: usize = if total == 0 {
        n
    } else {
        total
    };
    proof {
        lemma_weight_from_mono(scores@, max_score as nat, 0);
    }
    proof {
        assert((draw as int) * (whole as int) <= 4294967296 * 18446744073709551615) by (nonlinear_arith)
            requires
                draw < 4294967296,
                whole as int <= 18446744073709551615,
        ;
    }
    let product: u128 = (draw as u128) * (whole as u128);
    let target_wide = product / (CERTAIN as u128);
    proof {
        assert(target_wide < whole) by (nonlinear_arith)
            requires
                target_wide as int == product as int / (CERTAIN as int),
                product as int == draw as int * whole as int,
                draw < CERTAIN,
                whole > 0,
                CERTAIN == 4294967296,
        ;
    }
    let target = target_wide as usize;
    let mut i: usize = n;
    let mut sum: usize = 0;
    while i > 0
        invariant
            n == scores@.len(),
            i <= n,
            forall|j: int| 0 <= j < scores@.len() ==> scores@[j] <= max_score,
            total == inverse_total(scores@, max_score as nat, 0),
            whole == weight_from(scores@, max_score as nat, 0),
            target == draw_target(draw, whole as nat),
            target < whole,
            sum == weight_from(scores@, max_score as nat, i as int),
            target >= sum,
        decreases i,
    {
        i = i - 1;
        proof {
            lemma_weight_from_mono(scores@, max_score as nat, i as int);
            lemma_weight_from_mono(scores@, max_score as nat, 0);
        }
        let weight: usize = if total == 0 {
            1
        } else {
            max_score - scores[i]
        };
        sum = sum + weight;
        if target < sum {
            return i;
        }
    }
    0
}

/// An individual of a generation on an `n`-board: one queen in each of the
/// `n` columns, on one of the `n` rows.
pub open spec fn individual_ok(s: GenericChallengeState, n: usize) -> bool {
    s.size == n && s.queen_rows@.len() == n && rows_below(s.queen_rows@, n as nat)
}

/// `next` is bred from `sorted` on an `n`-board under `config`: it is the
/// [`generation`] of some outcomes of the draws that fit the generation
/// ([`plan_ok`]), select only individuals of positive selection weight,
/// cross at every step of the ring where crossover is certain and at none
/// where it is impossible, and swap `n` times in each individual where
/// mutation is certain and never where it is impossible.
pub open spec fn bred_from(sorted: Seq<Seq<usize>>, next: Seq<Seq<usize>>, n: nat, config: GeneticAlgorithmConfig) -> bool {
    let g = sorted.len();
    let elite = elite_len(config.elitism, g);
    let scores = crate::local_beam_search::score_seq(sorted);
    exists|sources: Seq<usize>, splits: Seq<Option<usize>>, swaps: Seq<Seq<(usize, usize)>>|
        {
            &&& plan_ok(g, n, elite, sources, splits, swaps)
            &&& next == #[trigger] generation(sorted, elite as int, sources, splits, swaps)
            &&& forall|k: int|
                0 <= k < sources.len() ==> selection_weight(scores, max_of(scores, g as int), #[trigger] sources[k] as int) > 0
            &&& config.crossover_probability == 0 ==> forall|k: int| 0 <= k < splits.len() ==> #[trigger] splits[k] is None
            &&& config.crossover_probability >= CERTAIN ==> forall|k: int| 0 <= k < splits.len() ==> #[trigger] splits[k] is Some
            &&& forall|k: int| 0 <= k < swaps.len() ==> (#[trigger] swaps[k]).len() <= n
            &&& config.mutation_probability == 0 ==> forall|k: int| 0 <= k < swaps.len() ==> (#[trigger] swaps[k]).len() == 0
            &&& config.mutation_probability >= CERTAIN ==> forall|k: int| 0 <= k < swaps.len() ==> (#[trigger] swaps[k]).len() == n
        }
}

/// `sorted` lists the individuals of `pop` in the order of a stable sort by
/// score.
pub open spec fn ordered_by_score(pop: Seq<Seq<usize>>, sorted: Seq<Seq<usize>>) -> bool {
    exists|order: Seq<usize>|
        #[trigger] is_best_prefix(score_seq(pop), pop.len(), order) && sorted.len() == order.len() && forall|t: int|
            0 <= t < order.len() ==> #[trigger] sorted[t] == pop[order[t] as int]
}

/// `next` is the generation after `pop`: `pop` sorted by score, then bred.
pub open spec fn next_generation_of(pop: Seq<Seq<usize>>, next: Seq<Seq<usize>>, n: nat, config: GeneticAlgorithmConfig) -> bool {
    exists|sorted: Seq<Seq<usize>>| #[trigger] ordered_by_score(pop, sorted) && bred_from(sorted, next, n, config)
}

/// The generations `gens` of a genetic search on an `n`-board under
/// `config` so far: the first holds `generation_size` permutations, each
/// other is the next generation of the one before, none but the last holds
/// an individual of score zero, and report `t` is an individual of
/// generation `t` with its lowest score.
pub open spec fn generations_ok(
    gens: Seq<Seq<Seq<usize>>>,
    reports: Seq<(Seq<usize>, nat)>,
    n: nat,
    config: GeneticAlgorithmConfig,
) -> bool {
    &&& gens.len() >= 1
    &&& gens[0].len() == config.generation_size
    &&& forall|t: int, q: int| 0 <= t < gens.len() && 0 <= q < gens[t].len() ==> (#[trigger] gens[t][q]).len() == n
    &&& forall|q: int| 0 <= q < gens[0].len() ==> is_permutation(#[trigger] gens[0][q], n)
    &&& forall|t: int| 0 <= t < gens.len() - 1 ==> #[trigger] next_generation_of(gens[t], gens[t + 1], n, config)
    &&& forall|t: int| 0 <= t < gens.len() - 1 ==> no_zero(#[trigger] gens[t])
    &&& reports.len() <= gens.len()
    &&& forall|t: int| 0 <= t < reports.len() ==> lowest_in(gens[t], (#[trigger] reports[t]).0, reports[t].1)
}

/// A genetic search on an `n`-board under `config` went through `gens`,
/// reported `reports`, one per generation it looked at, and returned `rows`
/// with `score`: an individual of score zero of the last generation, the
/// last one reported, or, after `generation_count` generations, one of the
/// final generation with its lowest score.
pub open spec fn genetic_outcome(
    gens: Seq<Seq<Seq<usize>>>,
    reports: Seq<(Seq<usize>, nat)>,
    n: nat,
    config: GeneticAlgorithmConfig,
    rows: Seq<usize>,
    score: nat,
) -> bool {
    &&& generations_ok(gens, reports, n, config)
    &&& gens.len() <= config.generation_count + 1
    &&& {
        ||| reports.len() == gens.len() && score == 0 && reports.last() == (rows, 0nat)
        ||| reports.len() + 1 == gens.len() && gens.len() == config.generation_count + 1 && lowest_in(gens.last(), rows, score)
    }
}

/// With a positive elite fraction, the best individual of a generation is
/// carried into the next one: the next generation's first individual scores
/// at most the lowest score of the one before.
pub proof fn lemma_elite_keeps_best(
    pop: Seq<Seq<usize>>,
    next: Seq<Seq<usize>>,
    n: nat,
    config: GeneticAlgorithmConfig,
    rows: Seq<usize>,
    score: nat,
)
    requires
        size_fits(n),
        config.elitism > 0,
        pop.len() > 0,
        pop.len() <= usize::MAX,
        forall|q: int| 0 <= q < pop.len() ==> (#[trigger] pop[q]).len() == n,
        next_generation_of(pop, next, n, config),
        lowest_in(pop, rows, score),
    ensures
        next.len() > 0,
        conflict_count(next[0]) <= score,
{
    let g = pop.len();
    let sorted = choose|sorted: Seq<Seq<usize>>| #[trigger] ordered_by_score(pop, sorted) && bred_from(sorted, next, n, config);
    let order = choose|order: Seq<usize>|
        #[trigger] is_best_prefix(score_seq(pop), pop.len(), order) && sorted.len() == order.len() && forall|t: int|
            0 <= t < order.len() ==> #[trigger] sorted[t] == pop[order[t] as int];
    let elite = elite_len(config.elitism, g);
    assert(elite >= 1) by {
        let p = config.elitism as int * g as int;
        assert(p >= 1) by (nonlinear_arith)
            requires
                config.elitism > 0,
                g > 0,
                p == config.elitism as int * g as int,
        ;
        if p < CERTAIN as int * g as int {
            assert((p + CERTAIN as int - 1) / (CERTAIN as int) >= 1) by (nonlinear_arith)
                requires
                    p >= 1,
                    CERTAIN == 4294967296,
            ;
        }
    }
    let scores = score_seq(sorted);
    let (sources, splits, swaps) = choose|sources: Seq<usize>, splits: Seq<Option<usize>>, swaps: Seq<Seq<(usize, usize)>>|
        {
            &&& plan_ok(g, n, elite, sources, splits, swaps)
            &&& next == #[trigger] generation(sorted, elite as int, sources, splits, swaps)
            &&& forall|k: int|
                0 <= k < sources.len() ==> selection_weight(scores, max_of(scores, g as int), #[trigger] sources[k] as int) > 0
            &&& config.crossover_probability == 0 ==> forall|k: int| 0 <= k < splits.len() ==> #[trigger] splits[k] is None
            &&& config.crossover_probability >= CERTAIN ==> forall|k: int| 0 <= k < splits.len() ==> #[trigger] splits[k] is Some
            &&& forall|k: int| 0 <= k < swaps.len() ==> (#[trigger] swaps[k]).len() <= n
            &&& config.mutation_probability == 0 ==> forall|k: int| 0 <= k < swaps.len() ==> (#[trigger] swaps[k]).len() == 0
            &&& config.mutation_probability >= CERTAIN ==> forall|k: int| 0 <= k < swaps.len() ==> (#[trigger] swaps[k]).len() == n
        };
    let sel = selected(sorted, elite as int, sources);
    lemma_ring_keeps_prefix(sel, elite as int, splits, splits.len() as int);
    assert(next[0] == ring_crossed(sel, elite as int, splits, splits.len() as int)[0]);
    assert(next[0] == sorted[0]);
    let u = choose|u: int| 0 <= u < pop.len() && pop[u] == rows;
    lemma_first_is_lowest(score_seq(pop), g, order, u);
    crate::board::lemma_conflicts_bound(pop[u], n as int, n as int);
    crate::board::lemma_conflicts_bound(pop[order[0] as int], n as int, n as int);
}

/// With a positive elite fraction the reported best score never gets worse
/// from one generation to the next, and the result scores at most every
/// score reported.
pub proof fn lemma_reported_scores_never_worsen(
    gens: Seq<Seq<Seq<usize>>>,
    reports: Seq<(Seq<usize>, nat)>,
    n: nat,
    config: GeneticAlgorithmConfig,
    rows: Seq<usize>,
    score: nat,
)
    requires
        size_fits(n),
        config.elitism > 0,
        config.generation_size > 0,
        genetic_outcome(gens, reports, n, config, rows, score),
    ensures
        forall|t: int| 0 <= t < reports.len() - 1 ==> (#[trigger] reports[t + 1]).1 <= reports[t].1,
        forall|t: int| 0 <= t < reports.len() ==> score <= (#[trigger] reports[t]).1,
{
    assert forall|t: int| 0 <= t < gens.len() - 1 && gens[t].len() == config.generation_size implies #[trigger] gens[t + 1].len()
        == config.generation_size by {
        lemma_next_len(gens[t], gens[t + 1], n, config);
    }
    lemma_gens_len(gens, reports, n, config, gens.len() - 1);
    assert forall|t: int| 0 <= t < reports.len() - 1 implies (#[trigger] reports[t + 1]).1 <= reports[t].1 by {
        lemma_gens_len(gens, reports, n, config, t);
        lemma_elite_keeps_best(gens[t], gens[t + 1], n, config, reports[t].0, reports[t].1);
        lemma_gens_len(gens, reports, n, config, t + 1);
    }
    assert forall|t: int| 0 <= t < reports.len() implies score <= (#[trigger] reports[t]).1 by {
        if score != 0 {
            lemma_lowest_chain(gens, reports, n, config, rows, score, t);
        }
    }
}

/// With an elite fraction of one, each generation is the one before in
/// sorted order: every individual of the next generation is one of the one
/// before.
pub proof fn lemma_full_elitism_next_is_sorted(pop: Seq<Seq<usize>>, next: Seq<Seq<usize>>, n: nat, config: GeneticAlgorithmConfig)
    requires
        config.elitism >= CERTAIN,
        next_generation_of(pop, next, n, config),
    ensures
        next.len() == pop.len(),
        forall|q: int| 0 <= q < next.len() ==> pop.contains(#[trigger] next[q]),
{
    let sorted = choose|sorted: Seq<Seq<usize>>| #[trigger] ordered_by_score(pop, sorted) && bred_from(sorted, next, n, config);
    let order = choose|order: Seq<usize>|
        #[trigger] is_best_prefix(score_seq(pop), pop.len(), order) && sorted.len() == order.len() && forall|t: int|
            0 <= t < order.len() ==> #[trigger] sorted[t] == pop[order[t] as int];
    let g = sorted.len();
    assert((config.elitism as int) * (g as int) >= (CERTAIN as int) * (g as int)) by (nonlinear_arith)
        requires
            config.elitism >= CERTAIN,
    ;
    let elite = elite_len(config.elitism, g);
    assert(elite == g);
    let scores = score_seq(sorted);
    let (sources, splits, swaps) = choose|sources: Seq<usize>, splits: Seq<Option<usize>>, swaps: Seq<Seq<(usize, usize)>>|
        {
            &&& plan_ok(g, n, elite, sources, splits, swaps)
            &&& next == #[trigger] generation(sorted, elite as int, sources, splits, swaps)
            &&& forall|k: int|
                0 <= k < sources.len() ==> selection_weight(scores, max_of(scores, g as int), #[trigger] sources[k] as int) > 0
            &&& config.crossover_probability == 0 ==> forall|k: int| 0 <= k < splits.len() ==> #[trigger] splits[k] is None
            &&& config.crossover_probability >= CERTAIN ==> forall|k: int| 0 <= k < splits.len() ==> #[trigger] splits[k] is Some
            &&& forall|k: int| 0 <= k < swaps.len() ==> (#[trigger] swaps[k]).len() <= n
            &&& config.mutation_probability == 0 ==> forall|k: int| 0 <= k < swaps.len() ==> (#[trigger] swaps[k]).len() == 0
            &&& config.mutation_probability >= CERTAIN ==> forall|k: int| 0 <= k < swaps.len() ==> (#[trigger] swaps[k]).len() == n
        };
    let sel = selected(sorted, elite as int, sources);
    assert(splits.len() == 0);
    assert(ring_crossed(sel, elite as int, splits, 0) == sel);
    assert forall|q: int| 0 <= q < next.len() implies pop.contains(#[trigger] next[q]) by {
        assert(next[q] == sel[q]);
        assert(sel[q] == sorted[q]);
        assert(pop[order[q] as int] == next[q]);
    }
}

/// With an elite fraction of one, every generation reports the same score.
pub proof fn lemma_full_elitism_reports_same_score(
    gens: Seq<Seq<Seq<usize>>>,
    reports: Seq<(Seq<usize>, nat)>,
    n: nat,
    config: GeneticAlgorithmConfig,
    rows: Seq<usize>,
    score: nat,
)
    requires
        size_fits(n),
        config.elitism >= CERTAIN,
        config.generation_size > 0,
        genetic_outcome(gens, reports, n, config, rows, score),
    ensures
        forall|t: int| 0 <= t < reports.len() ==> (#[trigger] reports[t]).1 == reports[0].1,
{
    lemma_reported_scores_never_worsen(gens, reports, n, config, rows, score);
    assert forall|t: int| 0 <= t < reports.len() - 1 implies (#[trigger] reports[t + 1]).1 >= reports[t].1 by {
        lemma_full_elitism_next_is_sorted(gens[t], gens[t + 1], n, config);
        let nx = gens[t + 1];
        let r1 = reports[t + 1].0;
        assert(nx.contains(r1));
        let q = choose|q: int| 0 <= q < nx.len() && #[trigger] nx[q] == r1;
        assert(gens[t].contains(nx[q]));
    }
    assert forall|t: int| 0 <= t < reports.len() implies (#[trigger] reports[t]).1 == reports[0].1 by {
        lemma_reports_constant(reports, t);
    }
}

proof fn lemma_reports_constant(reports: Seq<(Seq<usize>, nat)>, t: int)
    requires
        forall|k: int| 0 <= k < reports.len() - 1 ==> (#[trigger] reports[k + 1]).1 <= reports[k].1,
        forall|k: int| 0 <= k < reports.len() - 1 ==> (#[trigger] reports[k + 1]).1 >= reports[k].1,
        0 <= t < reports.len(),
    ensures
        reports[t].1 == reports[0].1,
    decreases t,
{
    if t > 0 {
        lemma_reports_constant(reports, t - 1);
        let p = t - 1;
        assert(reports[p + 1].1 == reports[p].1);
    }
}

proof fn lemma_next_len(pop: Seq<Seq<usize>>, next: Seq<Seq<usize>>, n: nat, config: GeneticAlgorithmConfig)
    requires
        next_generation_of(pop, next, n, config),
    ensures
        next.len() == pop.len(),
{
    let sorted = choose|sorted: Seq<Seq<usize>>| #[trigger] ordered_by_score(pop, sorted) && bred_from(sorted, next, n, config);
    let order = choose|order: Seq<usize>|
        #[trigger] is_best_prefix(score_seq(pop), pop.len(), order) && sorted.len() == order.len() && forall|t: int|
            0 <= t < order.len() ==> #[trigger] sorted[t] == pop[order[t] as int];
    let g = sorted.len();
    let elite = elite_len(config.elitism, g);
    let scores = score_seq(sorted);
    let (sources, splits, swaps) = choose|sources: Seq<usize>, splits: Seq<Option<usize>>, swaps: Seq<Seq<(usize, usize)>>|
        {
            &&& plan_ok(g, n, elite, sources, splits, swaps)
            &&& next == #[trigger] generation(sorted, elite as int, sources, splits, swaps)
            &&& forall|k: int|
                0 <= k < sources.len() ==> selection_weight(scores, max_of(scores, g as int), #[trigger] sources[k] as int) > 0
            &&& config.crossover_probability == 0 ==> forall|k: int| 0 <= k < splits.len() ==> #[trigger] splits[k] is None
            &&& config.crossover_probability >= CERTAIN ==> forall|k: int| 0 <= k < splits.len() ==> #[trigger] splits[k] is Some
            &&& forall|k: int| 0 <= k < swaps.len() ==> (#[trigger] swaps[k]).len() <= n
            &&& config.mutation_probability == 0 ==> forall|k: int| 0 <= k < swaps.len() ==> (#[trigger] swaps[k]).len() == 0
            &&& config.mutation_probability >= CERTAIN ==> forall|k: int| 0 <= k < swaps.len() ==> (#[trigger] swaps[k]).len() == n
        };
    let sel = selected(sorted, elite as int, sources);
    lemma_ring_keeps_prefix(sel, elite as int, splits, splits.len() as int);
}

proof fn lemma_gens_len(
    gens: Seq<Seq<Seq<usize>>>,
    reports: Seq<(Seq<usize>, nat)>,
    n: nat,
    config: GeneticAlgorithmConfig,
    t: int,
)
    requires
        generations_ok(gens, reports, n, config),
        0 <= t < gens.len(),
    ensures
        gens[t].len() == config.generation_size,
    decreases t,
{
    if t > 0 {
        lemma_gens_len(gens, reports, n, config, t - 1);
        let p = t - 1;
        assert(next_generation_of(gens[p], gens[p + 1], n, config));
        lemma_next_len(gens[p], gens[p + 1], n, config);
    }
}

proof fn lemma_lowest_chain(
    gens: Seq<Seq<Seq<usize>>>,
    reports: Seq<(Seq<usize>, nat)>,
    n: nat,
    config: GeneticAlgorithmConfig,
    rows: Seq<usize>,
    score: nat,
    t: int,
)
    requires
        size_fits(n),
        config.elitism > 0,
        config.generation_size > 0,
        genetic_outcome(gens, reports, n, config, rows, score),
        score != 0,
        0 <= t < reports.len(),
    ensures
        score <= reports[t].1,
    decreases gens.len() - t,
{
    lemma_gens_len(gens, reports, n, config, t);
    lemma_gens_len(gens, reports, n, config, t + 1);
    lemma_elite_keeps_best(gens[t], gens[t + 1], n, config, reports[t].0, reports[t].1);
    if t + 1 < reports.len() {
        lemma_lowest_chain(gens, reports, n, config, rows, score, t + 1);
    } else {
        assert(gens.last() == gens[t + 1]);
    }
}

/// `next` has as many individuals as `sorted`, and its first
/// [`elite_len`] individuals are those of `sorted`.
pub open spec fn keeps_elite(sorted: Seq<Seq<usize>>, next: Seq<Seq<usize>>, elitism: u64) -> bool {
    &&& next.len() == sorted.len()
    &&& forall|t: int| 0 <= t < elite_len(elitism, sorted.len()) ==> #[trigger] next[t] == sorted[t]
}

/// With an elite fraction of one, a generation passes to the next one
/// unchanged: no individual is selected, crossed or mutated.
pub proof fn lemma_full_elitism_keeps_generation(sorted: Seq<Seq<usize>>, next: Seq<Seq<usize>>, elitism: u64)
    requires
        elitism >= CERTAIN,
        keeps_elite(sorted, next, elitism),
    ensures
        next == sorted,
{
    assert((elitism as int) * (sorted.len() as int) >= (CERTAIN as int) * (sorted.len() as int)) by (nonlinear_arith)
        requires
            elitism >= CERTAIN,
    ;
    assert(next =~= sorted);
}

/// Whether a generation of `g` individuals on an `n`-board is small enough
/// that the sum of their scores fits in a `usize`.
pub open spec fn population_fits(n: nat, g: nat) -> bool {
    size_fits(n) && g * (n * n) <= usize::MAX
}

/// Configuration of a genetic search. The elite fraction and the two
/// probabilities are given in units of 2^-32: [`CERTAIN`] stands for 1.
pub struct GeneticAlgorithmConfig {
    pub generation_size: usize,
    pub elitism: u64,
    pub crossover_probability: u64,
    pub mutation_probability: u64,
    pub generation_count: usize,
}

/// A population-based search: keep an elite, fill the rest of the next
/// generation by fitness-proportional selection, then cross adjacent
/// individuals and mutate them.
pub struct GeneticAlgorithm {
    size: usize,
    rng: rand::StdRng,
    config: GeneticAlgorithmConfig,
}

/// The partner of non-elite place `i` in the crossover ring over places
/// `elite .. g`: the next place, and for the last one the first.
pub open spec fn ring_next(i: int, elite: int, g: int) -> int {
    if i + 1 < g {
        i + 1
    } else {
        elite
    }
}

/// `pop` with individuals `i` and `j` exchanging their first `split` rows.
pub open spec fn cross_pair(pop: Seq<Seq<usize>>, i: int, j: int, split: int) -> Seq<Seq<usize>> {
    pop.update(i, crossed(pop[i], pop[j], split)).update(j, crossed(pop[j], pop[i], split))
}

/// `pop` after the first `m` steps of the crossover ring: step `k` crosses
/// place `elite + k` with its [`ring_next`] at the split `splits[k]`, or
/// leaves them where it is `None`.
pub open spec fn ring_crossed(pop: Seq<Seq<usize>>, elite: int, splits: Seq<Option<usize>>, m: int) -> Seq<Seq<usize>>
    decreases m,
{
    if m <= 0 {
        pop
    } else {
        let prev = ring_crossed(pop, elite, splits, m - 1);
        let i = elite + m - 1;
        match splits[m - 1] {
            Some(split) => cross_pair(prev, i, ring_next(i, elite, pop.len() as int), split as int),
            None => prev,
        }
    }
}

/// `s` after exchanging, in order, the two columns of each pair of `swaps`.
pub open spec fn apply_swaps(s: Seq<usize>, swaps: Seq<(usize, usize)>) -> Seq<usize>
    decreases swaps.len(),
{
    if swaps.len() == 0 {
        s
    } else {
        let prev = apply_swaps(s, swaps.drop_last());
        swapped(prev, swaps.last().0 as int, swaps.last().1 as int)
    }
}

/// Mutation only rearranges the rows of an individual: after any swaps of
/// columns in range the multiset of rows is the same, and with no swaps the
/// individual is unchanged.
pub proof fn lemma_swaps_keep_rows(s: Seq<usize>, swaps: Seq<(usize, usize)>)
    requires
        forall|q: int| 0 <= q < swaps.len() ==> (#[trigger] swaps[q]).0 < s.len() && swaps[q].1 < s.len(),
    ensures
        apply_swaps(s, swaps).to_multiset() == s.to_multiset(),
        apply_swaps(s, swaps).len() == s.len(),
        swaps.len() == 0 ==> apply_swaps(s, swaps) == s,
    decreases swaps.len(),
{
    if swaps.len() > 0 {
        let init = swaps.drop_last();
        assert forall|q: int| 0 <= q < init.len() implies (#[trigger] init[q]).0 < s.len() && init[q].1 < s.len() by {
            assert(init[q] == swaps[q]);
        }
        lemma_swaps_keep_rows(s, init);
        let last = swaps.last();
        assert(last == swaps[swaps.len() - 1]);
        crate::board::lemma_swap_keeps_rows(apply_swaps(s, init), last.0 as int, last.1 as int);
    }
}

/// The elite of `sorted` followed by the individuals at `sources`.
pub open spec fn selected(sorted: Seq<Seq<usize>>, elite: int, sources: Seq<usize>) -> Seq<Seq<usize>> {
    Seq::new((elite + sources.len()) as nat, |t: int| if t < elite { sorted[t] } else { sorted[sources[t - elite] as int] })
}

/// `pop` with the swaps of `swaps[k]` applied to place `elite + k`.
pub open spec fn mutated(pop: Seq<Seq<usize>>, elite: int, swaps: Seq<Seq<(usize, usize)>>) -> Seq<Seq<usize>> {
    Seq::new(
        pop.len(),
        |t: int| if elite <= t < elite + swaps.len() { apply_swaps(pop[t], swaps[t - elite]) } else { pop[t] },
    )
}

/// The generation built from `sorted` by keeping `elite` individuals,
/// selecting `sources`, crossing in a ring at `splits` and mutating by `swaps`.
pub open spec fn generation(
    sorted: Seq<Seq<usize>>,
    elite: int,
    sources: Seq<usize>,
    splits: Seq<Option<usize>>,
    swaps: Seq<Seq<(usize, usize)>>,
) -> Seq<Seq<usize>> {
    mutated(ring_crossed(selected(sorted, elite, sources), elite, splits, splits.len() as int), elite, swaps)
}

/// The outcomes of the draws of one generation fit a generation of `g` on an
/// `n`-board with `elite` elite places: a source for each other place, a
/// split (or none) for each step of the ring where there are at least two
/// other places, and column pairs for the mutation of each other place.
pub open spec fn plan_ok(
    g: nat,
    n: nat,
    elite: nat,
    sources: Seq<usize>,
    splits: Seq<Option<usize>>,
    swaps: Seq<Seq<(usize, usize)>>,
) -> bool {
    &&& elite <= g
    &&& elite + sources.len() == g
    &&& forall|k: int| 0 <= k < sources.len() ==> #[trigger] sources[k] < g
    &&& splits.len() == if g - elite >= 2 { g - elite } else { 0 }
    &&& forall|k: int| 0 <= k < splits.len() ==> (#[trigger] splits[k] matches Some(sp) ==> sp <= n)
    &&& swaps.len() == g - elite
    &&& forall|k: int, q: int|
        0 <= k < swaps.len() && 0 <= q < swaps[k].len() ==> (#[trigger] swaps[k][q]).0 < n && swaps[k][q].1 < n
}

proof fn lemma_crossed_ok(a: Seq<usize>, b: Seq<usize>, n: nat, split: int)
    requires
        a.len() == n,
        b.len() == n,
        rows_below(a, n),
        rows_below(b, n),
        0 <= split <= n,
    ensures
        crossed(a, b, split).len() == n,
        rows_below(crossed(a, b, split), n),
{
    let c = crossed(a, b, split);
    assert forall|q: int| 0 <= q < c.len() implies #[trigger] c[q] < n by {
        if q < split {
            assert(c[q] == b[q]);
        } else {
            assert(c[q] == a[q - split + split]);
        }
    }
}

proof fn lemma_ring_keeps_prefix(pop: Seq<Seq<usize>>, elite: int, splits: Seq<Option<usize>>, m: int)
    requires
        0 <= elite,
        m <= splits.len(),
        elite + m <= pop.len(),
    ensures
        ring_crossed(pop, elite, splits, m).len() == pop.len(),
        forall|t: int| 0 <= t < elite && t < pop.len() ==> #[trigger] ring_crossed(pop, elite, splits, m)[t] == pop[t],
    decreases m,
{
    if m > 0 {
        lemma_ring_keeps_prefix(pop, elite, splits, m - 1);
        let prev = ring_crossed(pop, elite, splits, m - 1);
        let i = elite + m - 1;
        let j = ring_next(i, elite, pop.len() as int);
        assert(elite <= j < pop.len());
        if let Some(split) = splits[m - 1] {
            assert(ring_crossed(pop, elite, splits, m) == cross_pair(prev, i, j, split as int));
        }
    }
}

/// The next generation, built from the outcomes of its draws: the first
/// `elite` individuals of `sorted`, then those at `sources`; then, where
/// there are at least two non-elite places, each non-elite place in turn
/// crossed with the next one (the last with the first) at its split; then
/// each non-elite individual with its swaps applied in order.
#[verifier::spinoff_prover]
pub fn build_generation(
    sorted: &Vec<GenericChallengeState>,
    n: usize,
    elite: usize,
    sources: &Vec<usize>,
    splits: &Vec<Option<usize>>,
    swaps: &Vec<Vec<(usize, usize)>>,
) -> (r: Vec<GenericChallengeState>)
    requires
        plan_ok(sorted@.len(), n as nat, elite as nat, sources@, splits@, swaps.deep_view()),
        forall|t: int| 0 <= t < sorted@.len() ==> individual_ok(#[trigger] sorted@[t], n),
    ensures
        placements(r@) == generation(placements(sorted@), elite as int, sources@, splits@, swaps.deep_view()),
        forall|t: int| 0 <= t < r@.len() ==> individual_ok(#[trigger] r@[t], n),
{
    let g = sorted.len();
    let ghost sp = placements(sorted@);
    let ghost sel = selected(sp, elite as int, sources@);
    let ghost sw = swaps.deep_view();
    let mut next: Vec<GenericChallengeState> = Vec::new();
    let mut t: usize = 0;
    while t < g
        invariant
            g == sorted@.len(),
            plan_ok(g as nat, n as nat, elite as nat, sources@, splits@, sw),
            sp == placements(sorted@),
            sel == selected(sp, elite as int, sources@),
            forall|q: int| 0 <= q < g ==> individual_ok(#[trigger] sorted@[q], n),
            t <= g,
            next@.len() == t,
            forall|q: int| 0 <= q < t ==> individual_ok(#[trigger] next@[q], n),
            forall|q: int| 0 <= q < t ==> #[trigger] next@[q].queen_rows@ == sel[q],
        decreases g - t,
    {
        let source = if t < elite {
            t
        } else {
            sources[t - elite]
        };
        let rows = copy_rows(&sorted[source].queen_rows);
        assert(rows@ == sel[t as int]);
        next.push(GenericChallengeState { size: n, queen_rows: rows });
        t = t + 1;
    }
    assert(placements(next@) =~= sel);
    let mut m: usize = 0;
    while m < splits.len()
        invariant
            g == sorted@.len(),
            next@.len() == g,
            plan_ok(g as nat, n as nat, elite as nat, sources@, splits@, sw),
            sel.len() == g,
            m <= splits@.len(),
            forall|q: int| 0 <= q < g ==> individual_ok(#[trigger] next@[q], n),
            placements(next@) == ring_crossed(sel, elite as int, splits@, m as int),
        decreases splits@.len() - m,
    {
        let i = elite + m;
        let j = if i + 1 < g {
            i + 1
        } else {
            elite
        };
        let ghost prev = placements(next@);
        match splits[m] {
            Some(split) => {
                let mut a = copy_rows(&next[i].queen_rows);
                let mut b = copy_rows(&next[j].queen_rows);
                let ghost a0 = a@;
                let ghost b0 = b@;
                assert(a0 == prev[i as int] && b0 == prev[j as int]);
                exchange_prefix(&mut a, &mut b, split);
                proof {
                    lemma_crossed_ok(a0, b0, n as nat, split as int);
                    lemma_crossed_ok(b0, a0, n as nat, split as int);
                }
                next.set(i, GenericChallengeState { size: n, queen_rows: a });
                next.set(j, GenericChallengeState { size: n, queen_rows: b });
                assert(placements(next@) =~= cross_pair(prev, i as int, j as int, split as int));
            },
            None => {},
        }
        m = m + 1;
    }
    let ghost crossed_pop = placements(next@);
    let mut t: usize = elite;
    while t < g
        invariant
            g == sorted@.len(),
            next@.len() == g,
            plan_ok(g as nat, n as nat, elite as nat, sources@, splits@, sw),
            sw == swaps.deep_view(),
            crossed_pop.len() == g,
            elite <= t <= g,
            forall|q: int| 0 <= q < g ==> individual_ok(#[trigger] next@[q], n),
            forall|q: int|
                0 <= q < g ==> #[trigger] next@[q].queen_rows@ == if elite <= q < t {
                    apply_swaps(crossed_pop[q], sw[q - elite])
                } else {
                    crossed_pop[q]
                },
        decreases g - t,
    {
        let mut rows = copy_rows(&next[t].queen_rows);
        let ghost start = rows@;
        let list = &swaps[t - elite];
        assert(list@.len() == sw[t - elite].len());
        let mut k: usize = 0;
        while k < list.len()
            invariant
                sw == swaps.deep_view(),
                list == swaps@[t - elite],
                plan_ok(g as nat, n as nat, elite as nat, sources@, splits@, sw),
                elite <= t < g,
                k <= list@.len(),
                rows@.len() == n,
                rows_below(rows@, n as nat),
                rows@ == apply_swaps(start, list@.take(k as int)),
            decreases list@.len() - k,
        {
            let (x, y) = list[k];
            assert(sw[t - elite][k as int] == list@[k as int]);
            let ghost before = rows@;
            swap_rows(&mut rows, x, y);
            proof {
                assert(list@.take(k + 1).drop_last() =~= list@.take(k as int));
                assert forall|q: int| 0 <= q < rows@.len() implies #[trigger] rows@[q] < n by {
                    let o = if q == y as int { x as int } else if q == x as int { y as int } else { q };
                    assert(rows@[q] == before[o]);
                }
            }
            k = k + 1;
        }
        assert(list@.take(list@.len() as int) =~= list@);
        assert(sw[t - elite] == list@);
        next.set(t, GenericChallengeState { size: n, queen_rows: rows });
        t = t + 1;
    }
    assert(placements(next@) =~= generation(sp, elite as int, sources@, splits@, sw));
    next
}

/// The score of each individual.
fn generation_scores(current: &Vec<GenericChallengeState>, n: usize) -> (r: Vec<usize>)
    requires
        size_fits(n as nat),
        forall|t: int| 0 <= t < current@.len() ==> individual_ok(#[trigger] current@[t], n),
    ensures
        r@.len() == current@.len(),
        forall|t: int| 0 <= t < current@.len() ==> #[trigger] r@[t] == conflict_count(current@[t].queen_rows@),
{
    let mut r: Vec<usize> = Vec::new();
    let mut t: usize = 0;
    while t < current.len()
        invariant
            size_fits(n as nat),
            forall|q: int| 0 <= q < current@.len() ==> individual_ok(#[trigger] current@[q], n),
            t <= current@.len(),
            r@.len() == t,
            forall|q: int| 0 <= q < t ==> #[trigger] r@[q] == conflict_count(current@[q].queen_rows@),
        decreases current@.len() - t,
    {
        let sc = current[t].score();
        r.push(sc);
        t = t + 1;
    }
    r
}

impl GeneticAlgorithm {
    /// The board dimension.
    pub closed spec fn dimension(&self) -> nat {
        self.size as nat
    }

    /// The board dimension, as a machine integer.
    pub closed spec fn board(&self) -> usize {
        self.size
    }

    /// The configuration of the search.
    pub closed spec fn settings(&self) -> GeneticAlgorithmConfig {
        self.config
    }

    /// The number of generations the search may run.
    pub closed spec fn generations(&self) -> nat {
        self.config.generation_count as nat
    }

    /// The number of individuals in a generation.
    pub closed spec fn generation_size(&self) -> nat {
        self.config.generation_size as nat
    }

    /// The elite fraction, in units of 2^-32.
    pub closed spec fn elitism(&self) -> u64 {
        self.config.elitism
    }

    /// A genetic search on a board of dimension `size`.
    pub fn new(size: usize, config: GeneticAlgorithmConfig, rng: rand::StdRng) -> (r: Self)
        ensures
            r.dimension() == size,
            r.generation_size() == config.generation_size,
            r.elitism() == config.elitism,
            r.generations() == config.generation_count,
            r.settings() == config,
    {
        GeneticAlgorithm { size: size, rng: rng, config: config }
    }

    /// The mutation of one individual, drawn: `size` trials of chance
    /// `mutation_probability`, each success drawing two distinct columns to
    /// exchange.
    fn mutation_swaps(&mut self) -> (r: Vec<(usize, usize)>)
        requires
            old(self).size >= 2,
        ensures
            final(self).size == old(self).size,
            final(self).config == old(self).config,
            r@.len() <= old(self).size,
            forall|q: int| 0 <= q < r@.len() ==> (#[trigger] r@[q]).0 < old(self).size && r@[q].1 < old(self).size && r@[q].0 != r@[q].1,
            old(self).config.mutation_probability == 0 ==> r@.len() == 0,
            old(self).config.mutation_probability >= CERTAIN ==> r@.len() == old(self).size,
    {
        let n = self.size;
        let mut r: Vec<(usize, usize)> = Vec::new();
        let mut trial: usize = 0;
        while trial < n
            invariant
                self.size == n,
                n >= 2,
                self.config == old(self).config,
                trial <= n,
                r@.len() <= trial,
                forall|q: int| 0 <= q < r@.len() ==> (#[trigger] r@[q]).0 < n && r@[q].1 < n && r@[q].0 != r@[q].1,
                self.config.mutation_probability == 0 ==> r@.len() == 0,
                self.config.mutation_probability >= CERTAIN ==> r@.len() == trial,
            decreases n - trial,
        {
            if chance(&mut self.rng, self.config.mutation_probability) {
                let pair = random_distinct_pair(&mut self.rng, n);
                r.push(pair);
            }
            trial = trial + 1;
        }
        r
    }

    /// The generation that follows `sorted`, whose individuals are in
    /// increasing order of their `scores`. It draws a source for each
    /// non-elite place with [`select_index`], then for each step of the
    /// crossover ring an event of chance `crossover_probability` and a split
    /// column, then the mutation of each non-elite individual, and builds
    /// the generation from these outcomes with [`build_generation`].
    #[verifier::spinoff_prover]
    pub fn breed(&mut self, sorted: &Vec<GenericChallengeState>, scores: &Vec<usize>) -> (r: Vec<GenericChallengeState>)
        requires
            sorted@.len() == old(self).settings().generation_size,
            sorted@.len() > 0,
            scores@.len() == sorted@.len(),
            old(self).board() >= 2,
            population_fits(old(self).board() as nat, sorted@.len() as nat),
            forall|t: int| 0 <= t < sorted@.len() ==> individual_ok(#[trigger] sorted@[t], old(self).board()),
            forall|t: int| 0 <= t < sorted@.len() ==> #[trigger] scores@[t] == conflict_count(sorted@[t].queen_rows@),
        ensures
            final(self).board() == old(self).board(),
            final(self).settings() == old(self).settings(),
            keeps_elite(placements(sorted@), placements(r@), old(self).settings().elitism),
            forall|t: int| 0 <= t < r@.len() ==> individual_ok(#[trigger] r@[t], old(self).board()),
            bred_from(placements(sorted@), placements(r@), old(self).board() as nat, old(self).settings()),
    {
        let n = self.size;
        let g = sorted.len();
        let mut max_score: usize = 0;
        let mut i: usize = 0;
        while i < g
            invariant
                i <= g,
                g == scores@.len(),
                max_score == max_of(scores@, i as int),
            decreases g - i,
        {
            if scores[i] > max_score {
                max_score = scores[i];
            }
            i = i + 1;
        }
        proof {
            lemma_max_of_bounds(scores@, g as int);
            assert forall|t: int| 0 <= t < g implies scores@[t] <= n * n by {
                crate::board::lemma_conflicts_bound(sorted@[t].queen_rows@, n as int, n as int);
            }
            assert(max_score <= n * n) by {
                if g > 0 {
                    lemma_max_is_some(scores@, g as int);
                }
            }
        }
        let mut total: usize = 0;
        let mut i: usize = g;
        while i > 0
            invariant
                i <= g,
                g == scores@.len(),
                forall|j: int| 0 <= j < g ==> scores@[j] <= max_score,
                max_score <= n * n,
                population_fits(n as nat, g as nat),
                total == inverse_total(scores@, max_score as nat, i as int),
            decreases i,
        {
            i = i - 1;
            proof {
                lemma_inverse_total_bound(scores@, max_score as nat, i as int);
                assert((g - i) * max_score <= g * (n * n)) by (nonlinear_arith)
                    requires
                        max_score <= n * n,
                        i < g,
                ;
            }
            total = total + (max_score - scores[i]);
        }
        let elite = elite_count(self.config.elitism, g);
        let mut sources: Vec<usize> = Vec::new();
        let mut k: usize = 0;
        while k < g - elite
            invariant
                self.size == n,
                self.config == old(self).config,
                elite <= g,
                g == scores@.len(),
                g > 0,
                k <= g - elite,
                sources@.len() == k,
                forall|j: int| 0 <= j < g ==> scores@[j] <= max_score,
                max_score == max_of(scores@, g as int),
                total == inverse_total(scores@, max_score as nat, 0),
                forall|q: int| 0 <= q < k ==> #[trigger] sources@[q] < g,
                forall|q: int|
                    0 <= q < k ==> selection_weight(scores@, max_score as nat, #[trigger] sources@[q] as int) > 0,
            decreases g - elite - k,
        {
            let draw = next_u32(&mut self.rng);
            let source = select_index(scores, max_score, total, draw);
            assert(weight_from(scores@, max_score as nat, source as int) == selection_weight(
                scores@,
                max_score as nat,
                source as int,
            ) + weight_from(scores@, max_score as nat, source + 1));
            sources.push(source);
            k = k + 1;
        }
        let mut splits: Vec<Option<usize>> = Vec::new();
        if g - elite >= 2 {
            let mut m: usize = 0;
            while m < g - elite
                invariant
                    self.size == n,
                    n >= 2,
                    self.config == old(self).config,
                    elite + 2 <= g,
                    m <= g - elite,
                    splits@.len() == m,
                    forall|q: int| 0 <= q < m ==> (#[trigger] splits@[q] matches Some(sp) ==> sp <= n),
                    self.config.crossover_probability == 0 ==> forall|q: int| 0 <= q < m ==> #[trigger] splits@[q] is None,
                    self.config.crossover_probability >= CERTAIN ==> forall|q: int| 0 <= q < m ==> #[trigger] splits@[q] is Some,
                decreases g - elite - m,
            {
                if chance(&mut self.rng, self.config.crossover_probability) {
                    let split = random_below(&mut self.rng, n);
                    splits.push(Some(split));
                } else {
                    splits.push(None);
                }
                m = m + 1;
            }
        }
        let mut swaps: Vec<Vec<(usize, usize)>> = Vec::new();
        let mut k: usize = 0;
        while k < g - elite
            invariant
                self.size == n,
                n >= 2,
                self.config == old(self).config,
                elite <= g,
                k <= g - elite,
                swaps@.len() == k,
                forall|q: int, w: int|
                    0 <= q < k && 0 <= w < swaps@[q]@.len() ==> (#[trigger] swaps@[q]@[w]).0 < n && swaps@[q]@[w].1 < n,
                forall|q: int| 0 <= q < k ==> (#[trigger] swaps@[q]@).len() <= n,
                self.config.mutation_probability == 0 ==> forall|q: int| 0 <= q < k ==> (#[trigger] swaps@[q]@).len() == 0,
                self.config.mutation_probability >= CERTAIN ==> forall|q: int| 0 <= q < k ==> (#[trigger] swaps@[q]@).len() == n,
            decreases g - elite - k,
        {
            let list = self.mutation_swaps();
            swaps.push(list);
            k = k + 1;
        }
        let ghost sw = swaps.deep_view();
        proof {
            assert forall|q: int| 0 <= q < sw.len() implies #[trigger] sw[q] == swaps@[q]@ by {
                assert(sw[q] == swaps@[q].deep_view());
                assert(swaps@[q].deep_view() =~= swaps@[q]@);
            }
        }
        let r = build_generation(sorted, n, elite, &sources, &splits, &swaps);
        proof {
            let sp = placements(sorted@);
            lemma_ring_keeps_prefix(selected(sp, elite as int, sources@), elite as int, splits@, splits@.len() as int);
            let gen = generation(sp, elite as int, sources@, splits@, sw);
            assert forall|t: int| 0 <= t < elite_len(self.config.elitism, sp.len()) implies #[trigger] placements(r@)[t] == sp[t] by {
                assert(gen[t] == ring_crossed(selected(sp, elite as int, sources@), elite as int, splits@, splits@.len() as int)[t]);
            }
            assert(plan_ok(g as nat, n as nat, elite as nat, sources@, splits@, sw));
            assert(placements(r@) == generation(sp, elite as int, sources@, splits@, sw));
            assert(scores@ =~= crate::local_beam_search::score_seq(sp));
            assert(bred_from(sp, placements(r@), n as nat, self.config));
        }
        r
    }

    /// Runs the search for at most `generation_count` generations. Each
    /// generation is sorted by score, stably; its best individual and any of
    /// score zero are reported, and the first of score zero is returned.
    /// Otherwise the search moves to the next generation, and after the last
    /// one returns the best individual of the final generation. A generation
    /// size of zero gives an empty placement of score zero.
    #[verifier::spinoff_prover]
    pub fn solve_with_callback<F: Fn(&[usize], usize)>(self, callback: F) -> (r: Solution)
        requires
            population_fits(self.dimension(), self.generation_size()),
            forall|a: &[usize], s: usize| callback.requires((a, s)),
        ensures
            r.score == conflict_count(r.queen_rows@),
            self.generation_size() == 0 ==> r.queen_rows@.len() == 0 && r.reports@.len() == 0,
            self.generation_size() > 0 ==> r.queen_rows@.len() == self.dimension() && rows_below(
                r.queen_rows@,
                self.dimension(),
            ),
            self.generation_size() > 0 ==> exists|gens: Seq<Seq<Seq<usize>>>|
                #[trigger] genetic_outcome(gens, r.reports@, self.dimension(), self.settings(), r.queen_rows@, r.score as nat),
    {
        let mut this = self;
        let n = this.size;
        let g = this.config.generation_size;
        if g == 0 {
            return Solution::new(Vec::new(), 0);
        }
        let mut current: Vec<GenericChallengeState> = Vec::new();
        let mut c: usize = 0;
        while c < g
            invariant
                c <= g,
                current@.len() == c,
                this.size == n,
                n == self.size,
                g == self.config.generation_size,
                forall|t: int| 0 <= t < current@.len() ==> individual_ok(#[trigger] current@[t], n),
                forall|t: int| 0 <= t < current@.len() ==> is_permutation(#[trigger] current@[t].queen_rows@, n as nat),
                this.config == self.config,
            decreases g - c,
        {
            let st = GenericChallengeState::new(n, &mut this.rng);
            current.push(st);
            c = c + 1;
        }
        let ghost config = self.config;
        let ghost mut gens: Seq<Seq<Seq<usize>>> = seq![placements(current@)];
        let ghost mut reports: Seq<(Seq<usize>, nat)> = Seq::empty();
        proof {
            assert forall|q: int| 0 <= q < gens[0].len() implies is_permutation(#[trigger] gens[0][q], n as nat) by {
                assert(gens[0][q] == current@[q].queen_rows@);
            }
            assert forall|w: int, q: int| 0 <= w < gens.len() && 0 <= q < gens[w].len() implies (#[trigger] gens[w][q]).len() == n by {
                assert(gens[w][q] == current@[q].queen_rows@);
            }
        }
        let mut pending_generations = this.config.generation_count;
        while pending_generations > 0
            invariant
                this.size == n,
                this.config == config,
                config == self.config,
                n == self.size,
                g == config.generation_size,
                g > 0,
                population_fits(n as nat, g as nat),
                pending_generations <= config.generation_count,
                current@.len() == g,
                forall|t: int| 0 <= t < current@.len() ==> individual_ok(#[trigger] current@[t], n),
                forall|a: &[usize], s: usize| callback.requires((a, s)),
                generations_ok(gens, reports, n as nat, config),
                gens.len() == config.generation_count - pending_generations + 1,
                reports.len() + 1 == gens.len(),
                gens.last() == placements(current@),
            decreases pending_generations,
        {
            let ghost pop = placements(current@);
            let scores = generation_scores(&current, n);
            let order = best_indices(&scores, g);
            proof {
                assert forall|q: int| 0 <= q < g implies #[trigger] scores@[q] == score_seq(pop)[q] by {
                    assert(pop[q] == current@[q].queen_rows@);
                }
                assert(scores@ =~= score_seq(pop));
            }
            let mut sorted: Vec<GenericChallengeState> = Vec::new();
            let mut sorted_scores: Vec<usize> = Vec::new();
            let mut t: usize = 0;
            while t < g
                invariant
                    this.size == n,
                    this.config == config,
                    config == self.config,
                    n == self.size,
                    g == config.generation_size,
                    g > 0,
                    size_fits(n as nat),
                    current@.len() == g,
                    pop == placements(current@),
                    scores@ == score_seq(pop),
                    scores@.len() == g,
                    is_best_prefix(scores@, g as nat, order@),
                    forall|q: int| 0 <= q < g ==> #[trigger] scores@[q] == conflict_count(current@[q].queen_rows@),
                    forall|q: int| 0 <= q < current@.len() ==> individual_ok(#[trigger] current@[q], n),
                    forall|a: &[usize], s: usize| callback.requires((a, s)),
                    generations_ok(gens, reports, n as nat, config),
                    gens.len() == config.generation_count - pending_generations + 1,
                    gens.last() == pop,
                    t == 0 ==> reports.len() + 1 == gens.len(),
                    t > 0 ==> reports.len() == gens.len(),
                    t <= g,
                    sorted@.len() == t,
                    sorted_scores@.len() == t,
                    forall|q: int| 0 <= q < t ==> individual_ok(#[trigger] sorted@[q], n),
                    forall|q: int| 0 <= q < t ==> #[trigger] sorted_scores@[q] == conflict_count(sorted@[q].queen_rows@),
                    forall|q: int| 0 <= q < t ==> #[trigger] sorted_scores@[q] != 0,
                    forall|q: int| 0 <= q < t ==> #[trigger] sorted@[q].queen_rows@ == pop[order@[q] as int],
                    t > 0 ==> sorted_scores@[0] == scores@[order@[0] as int],
                decreases g - t,
            {
                let source = order[t];
                let score = scores[source];
                assert(pop[source as int] == current@[source as int].queen_rows@);
                proof {
                    if t > 0 {
                        assert(crate::ranking::ranks_before(scores@, order@[0] as int, order@[t as int] as int));
                    }
                }
                if t == 0 || score == 0 {
                    callback(current[source].queen_rows.as_slice(), score);
                    proof {
                        let ghost before = reports;
                        reports = reports.push((pop[source as int], score as nat));
                        assert forall|u: int| 0 <= u < pop.len() implies score <= conflict_count(#[trigger] pop[u]) by {
                            lemma_first_is_lowest(scores@, g as nat, order@, u);
                            assert(scores@[u] == score_seq(pop)[u]);
                        }
                        assert(lowest_in(pop, pop[source as int], score as nat));
                        assert forall|w: int| 0 <= w < reports.len() implies lowest_in(gens[w], (#[trigger] reports[w]).0, reports[w].1) by {
                            if w < before.len() {
                                assert(reports[w] == before[w]);
                            }
                        }
                    }
                }
                if score == 0 {
                    let rows = copy_rows(&current[source].queen_rows);
                    let mut r = Solution::new(rows, 0);
                    r.reports = Ghost(reports);
                    proof {
                        assert(genetic_outcome(gens, reports, n as nat, config, r.queen_rows@, 0));
                        assert(genetic_outcome(gens, r.reports@, self.dimension(), self.settings(), r.queen_rows@, r.score as nat));
                    }
                    return r;
                }
                let rows = copy_rows(&current[source].queen_rows);
                sorted.push(GenericChallengeState { size: n, queen_rows: rows });
                sorted_scores.push(score);
                t = t + 1;
            }
            proof {
                assert(sorted_scores@[0] != 0);
                assert(sorted_scores@[0] == conflict_count(sorted@[0].queen_rows@));
                assert(individual_ok(sorted@[0], n));
                if n < 2 {
                    lemma_short_score_zero(sorted@[0].queen_rows@);
                }
                assert forall|u: int| 0 <= u < pop.len() implies conflict_count(#[trigger] pop[u]) != 0 by {
                    lemma_first_is_lowest(scores@, g as nat, order@, u);
                    assert(scores@[u] == score_seq(pop)[u]);
                }
                let sp = placements(sorted@);
                assert forall|q: int| 0 <= q < order@.len() implies #[trigger] sp[q] == pop[order@[q] as int] by {
                    assert(sp[q] == sorted@[q].queen_rows@);
                }
                assert(ordered_by_score(pop, sp));
            }
            let next = this.breed(&sorted, &sorted_scores);
            proof {
                let sp = placements(sorted@);
                assert(next_generation_of(pop, placements(next@), n as nat, config));
                let old_gens = gens;
                gens = gens.push(placements(next@));
                assert forall|w: int| 0 <= w < gens.len() - 1 implies #[trigger] next_generation_of(gens[w], gens[w + 1], n as nat, config) by {
                    if w < old_gens.len() - 1 {
                        assert(gens[w] == old_gens[w] && gens[w + 1] == old_gens[w + 1]);
                    } else {
                        assert(gens[w] == pop && gens[w + 1] == placements(next@));
                    }
                }
                assert forall|w: int| 0 <= w < gens.len() - 1 implies no_zero(#[trigger] gens[w]) by {
                    if w < old_gens.len() - 1 {
                        assert(gens[w] == old_gens[w]);
                    } else {
                        assert(gens[w] == pop);
                    }
                }
                assert forall|w: int| 0 <= w < reports.len() implies lowest_in(gens[w], (#[trigger] reports[w]).0, reports[w].1) by {
                    assert(gens[w] == old_gens[w]);
                }
                assert(gens[0] == old_gens[0]);
                assert forall|w: int, q: int| 0 <= w < gens.len() && 0 <= q < gens[w].len() implies (#[trigger] gens[w][q]).len() == n by {
                    if w < old_gens.len() {
                        assert(gens[w] == old_gens[w]);
                    } else {
                        assert(gens[w][q] == next@[q].queen_rows@);
                    }
                }
            }
            current = next;
            pending_generations = pending_generations - 1;
        }
        let ghost pop = placements(current@);
        let scores = generation_scores(&current, n);
        let best = best_indices(&scores, 1);
        let winner = best[0];
        let rows = copy_rows(&current[winner].queen_rows);
        proof {
            assert(pop[winner as int] == rows@);
            assert forall|q: int| 0 <= q < pop.len() implies scores@[winner as int] <= conflict_count(#[trigger] pop[q]) by {
                assert(pop[q] == current@[q].queen_rows@);
                lemma_first_is_lowest(scores@, 1, best@, q);
            }
            assert(lowest_in(pop, rows@, scores@[winner as int] as nat));
        }
        let mut r = Solution::new(rows, scores[winner]);
        r.reports = Ghost(reports);
        proof {
            assert(genetic_outcome(gens, reports, n as nat, config, r.queen_rows@, r.score as nat));
            assert(genetic_outcome(gens, r.reports@, self.dimension(), self.settings(), r.queen_rows@, r.score as nat));
        }
        r
    }

    /// Runs the search with no reporting.
    pub fn solve(self) -> (r: Solution)
        requires
            population_fits(self.dimension(), self.generation_size()),
        ensures
            r.score == conflict_count(r.queen_rows@),
            self.generation_size() == 0 ==> r.queen_rows@.len() == 0,
            self.generation_size() > 0 ==> r.queen_rows@.len() == self.dimension() && rows_below(
                r.queen_rows@,
                self.dimension(),
            ),
    {
        self.solve_with_callback(|a: &[usize], s: usize| {})
    }
}

} // verus!
