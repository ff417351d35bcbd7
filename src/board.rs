use crate::rng::{draw_below, next_u32, random_below};
use vstd::prelude::*;

verus! {

/// Whether queens at (column `c1`, row `r1`) and (column `c2`, row `r2`), in
/// two different columns, attack each other: same row or same diagonal.
pub open spec fn attacks(c1: int, r1: int, c2: int, r2: int) -> bool {
    r1 == r2 || c1 - c2 == r1 - r2 || c1 - c2 == r2 - r1
}

/// Whether the queens of columns `i` and `j` of `s` attack each other.
pub open spec fn hits(s: Seq<usize>, i: int, j: int) -> bool {
    attacks(i, s[i] as int, j, s[j] as int)
}

/// The number of columns `k < i` whose queen attacks the queen of column `j`.
pub open spec fn attackers_before(s: Seq<usize>, j: int, i: int) -> nat
    decreases i,
{
    if i <= 0 {
        0
    } else {
        attackers_before(s, j, i - 1) + if hits(s, i - 1, j) {
            1nat
        } else {
            0nat
        }
    }
}

/// The number of attacking pairs among the first `j` columns of `s`.
pub open spec fn conflicts_upto(s: Seq<usize>, j: int) -> nat
    decreases j,
{
    if j <= 0 {
        0
    } else {
        conflicts_upto(s, j - 1) + attackers_before(s, j - 1, j - 1)
    }
}

/// The conflict score: the number of unordered pairs of columns whose queens
/// attack each other.
pub open spec fn conflict_count(s: Seq<usize>) -> nat {
    conflicts_upto(s, s.len() as int)
}

/// Every queen stands on one of the `n` rows.
pub open spec fn rows_below(s: Seq<usize>, n: nat) -> bool {
    forall|i: int| 0 <= i < s.len() ==> #[trigger] s[i] < n
}

/// No two queens of `s` attack each other.
pub open spec fn non_attacking(s: Seq<usize>) -> bool {
    forall|i: int, j: int| 0 <= i < j < s.len() ==> !#[trigger] hits(s, i, j)
}

/// A placement of queens in the first columns of an `n`-board, no two of
/// which attack each other.
pub open spec fn valid_partial(s: Seq<usize>, n: nat) -> bool {
    s.len() <= n && rows_below(s, n) && non_attacking(s)
}

/// A full solution of the `n`-queens problem.
pub open spec fn is_solution(s: Seq<usize>, n: nat) -> bool {
    s.len() == n && valid_partial(s, n)
}

/// `s` assigns to each of the `n` columns a distinct row below `n`.
pub open spec fn is_permutation(s: Seq<usize>, n: nat) -> bool {
    &&& s.len() == n
    &&& rows_below(s, n)
    &&& forall|i: int, j: int| 0 <= i < s.len() && 0 <= j < s.len() && i != j ==> s[i] != s[j]
}

/// `t` is `s` with the values of columns `i` and `j` exchanged.
pub open spec fn swapped(s: Seq<usize>, i: int, j: int) -> Seq<usize> {
    s.update(i, s[j]).update(j, s[i])
}

/// The rows `0 .. n`, in order.
pub open spec fn first_rows(n: nat) -> Seq<usize> {
    Seq::new(n, |i: int| i as usize)
}

/// The rows that a sequence of 32-bit draws deals out of the pool `pending`:
/// the first draw, modulo the size of the pool, picks a row that goes to the
/// last column; the rest of the pool is dealt to the columns before it by the
/// following draws.
pub open spec fn deal(pending: Seq<usize>, draws: Seq<u32>) -> Seq<usize>
    decreases pending.len(),
{
    if pending.len() == 0 || draws.len() == 0 {
        Seq::empty()
    } else {
        let c = (draws[0] as nat % pending.len()) as int;
        deal(pending.remove(c), draws.drop_first()).push(pending[c])
    }
}

/// Why two queen positions, given as (column, row), are in each other's way.
pub enum PositionError {
    /// A queen is already there.
    Match,
    /// Queen in the same column.
    Column,
    /// Queen in the same row.
    Row,
    /// Queen in the same diagonal.
    Diagonal,
}

/// The outcome of checking two positions against each other.
pub open spec fn position_check(p1: (usize, usize), p2: (usize, usize)) -> Result<(), PositionError> {
    if p1.0 == p2.0 && p1.1 == p2.1 {
        Err(PositionError::Match)
    } else if p1.0 == p2.0 {
        Err(PositionError::Column)
    } else if p1.1 == p2.1 {
        Err(PositionError::Row)
    } else if attacks(p1.0 as int, p1.1 as int, p2.0 as int, p2.1 as int) {
        Err(PositionError::Diagonal)
    } else {
        Ok(())
    }
}

/// Board state shared by the strategies: the board dimension and the row of
/// the queen in each of the columns placed so far.
#[derive(Debug)]
pub struct GenericChallengeState {
    pub size: usize,
    pub queen_rows: Vec<usize>,
}

/// The placements held by a sequence of board states.
pub open spec fn placements(v: Seq<GenericChallengeState>) -> Seq<Seq<usize>> {
    Seq::new(v.len(), |i: int| v[i].queen_rows@)
}

/// Whether a board of dimension `n` is small enough that every count of
/// pairs of its columns fits in a `usize`.
pub open spec fn size_fits(n: nat) -> bool {
    n * n <= usize::MAX
}

/// At most `i` columns before `i` attack column `j`.
proof fn lemma_attackers_bound(s: Seq<usize>, j: int, i: int)
    ensures
        attackers_before(s, j, i) <= if i < 0 {
            0
        } else {
            i
        },
    decreases i,
{
    if i > 0 {
        lemma_attackers_bound(s, j, i - 1);
    }
}

/// The first `j` columns hold at most `j * n` attacking pairs.
pub(crate) proof fn lemma_conflicts_bound(s: Seq<usize>, j: int, n: int)
    requires
        0 <= j <= n,
    ensures
        conflicts_upto(s, j) <= j * n,
    decreases j,
{
    if j > 0 {
        lemma_conflicts_bound(s, j - 1, n);
        lemma_attackers_bound(s, j - 1, j - 1);
        assert((j - 1) * n + n == j * n) by (nonlinear_arith);
    }
}

/// The unordered pairs of columns, as (lower, higher), whose queens attack
/// each other.
pub open spec fn attacking_pairs(s: Seq<usize>) -> Set<(int, int)> {
    Set::new(|p: (int, int)| 0 <= p.0 < p.1 < s.len() && hits(s, p.0, p.1))
}

/// The attacking pairs whose higher column is below `j`, or is `j` with the
/// lower column below `i`.
spec fn pairs_before(s: Seq<usize>, j: int, i: int) -> Set<(int, int)> {
    Set::new(|p: (int, int)| 0 <= p.0 < p.1 && hits(s, p.0, p.1) && (p.1 < j || (p.1 == j && p.0 < i)))
}

proof fn lemma_pairs_before_len(s: Seq<usize>, j: int, i: int)
    requires
        0 <= i <= j,
    ensures
        pairs_before(s, j, i).finite(),
        pairs_before(s, j, i).len() == conflicts_upto(s, j) + attackers_before(s, j, i),
    decreases j, i,
{
    if i > 0 {
        lemma_pairs_before_len(s, j, i - 1);
        let prev = pairs_before(s, j, i - 1);
        assert(!prev.contains((i - 1, j)));
        if hits(s, i - 1, j) {
            assert(pairs_before(s, j, i) =~= prev.insert((i - 1, j)));
        } else {
            assert(pairs_before(s, j, i) =~= prev);
        }
    } else if j > 0 {
        lemma_pairs_before_len(s, j - 1, j - 1);
        assert(pairs_before(s, j, 0) =~= pairs_before(s, j - 1, j - 1));
    } else {
        assert(pairs_before(s, 0, 0) =~= Set::<(int, int)>::empty());
    }
}

/// The conflict score is the number of unordered pairs of columns whose
/// queens attack each other.
pub proof fn lemma_score_counts_attacking_pairs(s: Seq<usize>)
    ensures
        attacking_pairs(s).finite(),
        conflict_count(s) == attacking_pairs(s).len(),
{
    lemma_pairs_before_len(s, s.len() as int, 0);
    assert(attacking_pairs(s) =~= pairs_before(s, s.len() as int, 0));
}

/// Where no column before `i` attacks column `j`, none is counted.
proof fn lemma_attackers_zero(s: Seq<usize>, j: int, i: int)
    requires
        forall|k: int| 0 <= k < i ==> !#[trigger] hits(s, k, j),
    ensures
        attackers_before(s, j, i) == 0,
    decreases i,
{
    if i > 0 {
        lemma_attackers_zero(s, j, i - 1);
    }
}

/// A placement with no attacking pair has conflict score zero.
pub proof fn lemma_non_attacking_score_zero(s: Seq<usize>)
    requires
        non_attacking(s),
    ensures
        conflict_count(s) == 0,
{
    lemma_prefix_score_zero(s, s.len() as int);
}

proof fn lemma_prefix_score_zero(s: Seq<usize>, j: int)
    requires
        non_attacking(s),
        j <= s.len(),
    ensures
        conflicts_upto(s, j) == 0,
    decreases j,
{
    if j > 0 {
        lemma_prefix_score_zero(s, j - 1);
        assert forall|k: int| 0 <= k < j - 1 implies !#[trigger] hits(s, k, j - 1) by {
            assert(!hits(s, k, j - 1));
        }
        lemma_attackers_zero(s, j - 1, j - 1);
    }
}

/// In a solution no two queens share a row, so the rows form a permutation.
pub proof fn lemma_solution_is_permutation(s: Seq<usize>, n: nat)
    requires
        is_solution(s, n),
    ensures
        is_permutation(s, n),
{
    assert forall|i: int, j: int| 0 <= i < s.len() && 0 <= j < s.len() && i != j implies s[i] != s[j] by {
        if i < j {
            assert(!hits(s, i, j));
        } else {
            assert(!hits(s, j, i));
        }
    }
}

/// Exchanging two columns only rearranges the rows: the multiset of rows is
/// kept.
pub proof fn lemma_swap_keeps_rows(s: Seq<usize>, i: int, j: int)
    requires
        0 <= i < s.len(),
        0 <= j < s.len(),
    ensures
        swapped(s, i, j).to_multiset() == s.to_multiset(),
{
    broadcast use vstd::seq_lib::to_multiset_update, vstd::seq_lib::to_multiset_contains,
        vstd::multiset::group_multiset_axioms;

    if i == j {
        assert(swapped(s, i, j) =~= s);
    } else {
        let t1 = s.update(i, s[j]);
        assert(t1[j] == s[j]);
        assert(t1.to_multiset() == s.to_multiset().insert(s[j]).remove(s[i]));
        assert(t1.update(j, s[i]).to_multiset() == t1.to_multiset().insert(s[i]).remove(s[j]));
        let m = s.to_multiset();
        assert(s.contains(s[i]));
        assert(m.count(s[i]) > 0);
        let m4 = m.insert(s[j]).remove(s[i]).insert(s[i]).remove(s[j]);
        assert forall|x: usize| #[trigger] m4.count(x) == m.count(x) by {}
        assert(m4 =~= m);
    }
}

/// Exchanging two columns keeps a permutation a permutation.
pub proof fn lemma_swap_permutation(s: Seq<usize>, n: nat, i: int, j: int)
    requires
        is_permutation(s, n),
        0 <= i < s.len(),
        0 <= j < s.len(),
    ensures
        is_permutation(swapped(s, i, j), n),
{
    let t = swapped(s, i, j);
    assert forall|a: int, b: int| 0 <= a < t.len() && 0 <= b < t.len() && a != b implies t[a] != t[b] by {
        let sa = if a == j { i } else if a == i { j } else { a };
        let sb = if b == j { i } else if b == i { j } else { b };
        assert(t[a] == s[sa] && t[b] == s[sb]);
    }
    assert forall|a: int| 0 <= a < t.len() implies #[trigger] t[a] < n by {
        let sa = if a == j { i } else if a == i { j } else { a };
        assert(t[a] == s[sa]);
    }
}

/// A placement of fewer than two queens has no attacking pair.
pub proof fn lemma_short_score_zero(s: Seq<usize>)
    requires
        s.len() < 2,
    ensures
        conflict_count(s) == 0,
{
    assert(conflicts_upto(s, 0) == 0);
    assert(attackers_before(s, 0, 0) == 0);
    assert(conflicts_upto(s, 1) == 0);
}

/// The number of steps between `a` and `b`.
fn distance(a: usize, b: usize) -> (r: usize)
    ensures
        r == if a >= b {
            a - b
        } else {
            b - a
        },
{
    if a >= b {
        a - b
    } else {
        b - a
    }
}

impl GenericChallengeState {
    /// A board of dimension `size` with no queen placed yet.
    pub fn unpositioned(size: usize) -> (r: Self)
        ensures
            r.size == size,
            r.queen_rows@ == Seq::<usize>::empty(),
    {
        Self { size: size, queen_rows: Vec::new() }
    }

    /// Checks whether a queen at `p1` is in the way of a queen at `p2`, both
    /// given as (column, row), and says why.
    pub fn can_position(&self, p1: (usize, usize), p2: (usize, usize)) -> (r: Result<
        (),
        PositionError,
    >)
        ensures
            r == position_check(p1, p2),
    {
        let (x1, y1) = p1;
        let (x2, y2) = p2;
        if x1 == x2 && y1 == y2 {
            return Err(PositionError::Match);
        }
        if x1 == x2 {
            return Err(PositionError::Column);
        }
        if y1 == y2 {
            return Err(PositionError::Row);
        }
        let x_difference = distance(x1, x2);
        let y_difference = distance(y1, y2);
        if x_difference == y_difference {
            return Err(PositionError::Diagonal);
        }
        Ok(())
    }

    /// Whether queens at `p1` and `p2` can hit each other.
    pub fn can_hit(&self, p1: (usize, usize), p2: (usize, usize)) -> (r: bool)
        ensures
            r == position_check(p1, p2) is Err,
    {
        self.can_position(p1, p2).is_err()
    }

    /// The number of pairs of queens that can hit each other.
    pub fn score(&self) -> (r: usize)
        requires
            size_fits(self.queen_rows@.len() as nat),
        ensures
            r == conflict_count(self.queen_rows@),
            r == attacking_pairs(self.queen_rows@).len(),
    {
        proof {
            lemma_score_counts_attacking_pairs(self.queen_rows@);
        }
        let rows = &self.queen_rows;
        let n = rows.len();
        let mut score: usize = 0;
        let mut j: usize = 0;
        while j < n
            invariant
                n == rows@.len(),
                size_fits(n as nat),
                j <= n,
                score == conflicts_upto(rows@, j as int),
            decreases n - j,
        {
            proof {
                lemma_conflicts_bound(rows@, j as int, n as int);
                assert(j * n + n == (j + 1) * n) by (nonlinear_arith);
                assert((j + 1) * n <= n * n) by (nonlinear_arith)
                    requires
                        j + 1 <= n,
                ;
            }
            let mut i: usize = 0;
            while i < j
                invariant
                    n == rows@.len(),
                    size_fits(n as nat),
                    i <= j < n,
                    score == conflicts_upto(rows@, j as int) + attackers_before(rows@, j as int, i as int),
                    conflicts_upto(rows@, j as int) + j <= n * n,
                decreases j - i,
            {
                proof {
                    lemma_attackers_bound(rows@, j as int, i as int);
                }
                if self.can_hit((i, rows[i]), (j, rows[j])) {
                    score = score + 1;
                }
                i = i + 1;
            }
            j = j + 1;
        }
        score
    }

    /// Whether a queen at `pos`, given as (column, row), is out of the way of
    /// every queen placed so far.
    pub fn queen_can_be_positioned_at(&self, pos: (usize, usize)) -> (r: bool)
        ensures
            r == forall|x: int|
                0 <= x < self.queen_rows@.len() ==> #[trigger] position_check(
                    pos,
                    (x as usize, self.queen_rows@[x]),
                ) is Ok,
    {
        let mut x: usize = 0;
        while x < self.queen_rows.len()
            invariant
                x <= self.queen_rows@.len(),
                forall|k: int|
                    0 <= k < x ==> #[trigger] position_check(pos, (k as usize, self.queen_rows@[k])) is Ok,
            decreases self.queen_rows@.len() - x,
        {
            if self.can_position(pos, (x, self.queen_rows[x])).is_err() {
                assert(!(position_check(pos, ((x as int) as usize, self.queen_rows@[x as int])) is Ok));
                return false;
            }
            x = x + 1;
        }
        true
    }
    /// A board of dimension `size` with one queen in each column, on rows that
    /// form a pseudorandom permutation: `size` draws from `rng` are dealt by
    /// [`rows_from_draws`].
    pub fn new(size: usize, rng: &mut rand::StdRng) -> (r: Self)
        ensures
            r.size == size,
            is_permutation(r.queen_rows@, size as nat),
            exists|draws: Seq<u32>| draws.len() == size && r.queen_rows@ == #[trigger] deal(first_rows(size as nat), draws),
    {
        let mut draws: Vec<u32> = Vec::new();
        let mut k: usize = 0;
        while k < size
            invariant
                k <= size,
                draws@.len() == k,
            decreases size - k,
        {
            draws.push(next_u32(rng));
            k = k + 1;
        }
        let queen_rows = rows_from_draws(&draws);
        Self { size: size, queen_rows: queen_rows }
    }

    /// A pseudorandom column index.
    pub fn random_queen_index(&self, rng: &mut rand::StdRng) -> (r: usize)
        requires
            self.queen_rows@.len() > 0,
        ensures
            r < self.queen_rows@.len(),
    {
        random_below(rng, self.queen_rows.len())
    }

    /// Two distinct pseudorandom column indices, the pair uniformly chosen: the
    /// second is drawn among the columns other than the first, by
    /// [`random_distinct_pair`], rather than redrawn until it differs.
    pub fn get_two_random_queens(&self, rng: &mut rand::StdRng) -> (r: (usize, usize))
        requires
            self.queen_rows@.len() > 1,
        ensures
            r.0 < self.queen_rows@.len(),
            r.1 < self.queen_rows@.len(),
            r.0 != r.1,
    {
        random_distinct_pair(rng, self.queen_rows.len())
    }

    /// Exchanges the rows of columns `i` and `j`.
    pub fn swap_queens(&mut self, i: usize, j: usize)
        requires
            i < old(self).queen_rows@.len(),
            j < old(self).queen_rows@.len(),
        ensures
            final(self).size == old(self).size,
            final(self).queen_rows@ == swapped(old(self).queen_rows@, i as int, j as int),
    {
        swap_rows(&mut self.queen_rows, i, j);
    }
}

/// The rows dealt by `draws` out of the pool `0 .. draws.len()`: each draw
/// removes one row from the pool and places it in the last free column.
pub fn rows_from_draws(draws: &Vec<u32>) -> (r: Vec<usize>)
    ensures
        r@ == deal(first_rows(draws@.len()), draws@),
        is_permutation(r@, draws@.len()),
{
    let size = draws.len();
    let mut positions_pending: Vec<usize> = Vec::new();
    let mut queen_rows: Vec<usize> = Vec::new();
    let mut k: usize = 0;
    while k < size
        invariant
            k <= size,
            size == draws@.len(),
            positions_pending@.len() == k,
            queen_rows@.len() == k,
            forall|i: int| 0 <= i < k ==> #[trigger] positions_pending@[i] == i,
        decreases size - k,
    {
        positions_pending.push(k);
        queen_rows.push(0);
        k = k + 1;
    }
    assert(positions_pending@ =~= first_rows(size as nat));
    let ghost whole = deal(first_rows(size as nat), draws@);
    assert(queen_rows@.subrange(size as int, size as int) =~= Seq::<usize>::empty());
    assert(draws@.skip(0) =~= draws@);
    assert(whole =~= deal(positions_pending@, draws@.skip(0)) + queen_rows@.subrange(size as int, size as int));
    let mut taken: usize = 0;
    while positions_pending.len() > 0
        invariant
            size == draws@.len(),
            queen_rows@.len() == size,
            positions_pending@.len() <= size,
            taken + positions_pending@.len() == size,
            whole == deal(positions_pending@, draws@.skip(taken as int)) + queen_rows@.subrange(
                positions_pending@.len() as int,
                size as int,
            ),
            forall|i: int| 0 <= i < positions_pending@.len() ==> #[trigger] positions_pending@[i] < size,
            forall|i: int, j: int|
                0 <= i < positions_pending@.len() && 0 <= j < positions_pending@.len() && i != j
                    ==> positions_pending@[i] != positions_pending@[j],
            forall|i: int| positions_pending@.len() <= i < size ==> #[trigger] queen_rows@[i] < size,
            forall|i: int, j: int|
                positions_pending@.len() <= i < size && positions_pending@.len() <= j < size && i != j
                    ==> queen_rows@[i] != queen_rows@[j],
            forall|i: int, j: int|
                0 <= i < positions_pending@.len() && positions_pending@.len() <= j < size
                    ==> positions_pending@[i] != queen_rows@[j],
        decreases positions_pending@.len(),
    {
        let chosen = draw_below(draws[taken], positions_pending.len());
        let ghost before = positions_pending@;
        let ghost rows_before = queen_rows@;
        let position = positions_pending.remove(chosen);
        proof {
            assert forall|i: int| 0 <= i < positions_pending@.len() implies positions_pending@[i] != position by {
                if i < chosen {
                    assert(positions_pending@[i] == before[i]);
                } else {
                    assert(positions_pending@[i] == before[i + 1]);
                }
            }
            assert forall|i: int| 0 <= i < positions_pending@.len() implies #[trigger] positions_pending@[i] == (
                if i < chosen { before[i] } else { before[i + 1] }) by {}
        }
        let p = positions_pending.len();
        queen_rows.set(p, position);
        proof {
            let d = draws@.skip(taken as int);
            assert(d[0] == draws@[taken as int]);
            assert(d.drop_first() =~= draws@.skip(taken + 1));
            assert(deal(before, d) == deal(before.remove(chosen as int), d.drop_first()).push(before[chosen as int]));
            assert(queen_rows@.subrange(p as int, size as int) =~= seq![position] + rows_before.subrange(p + 1, size as int));
            assert(whole =~= deal(positions_pending@, draws@.skip(taken + 1)) + queen_rows@.subrange(p as int, size as int));
        }
        taken = taken + 1;
    }
    assert(queen_rows@.subrange(0, size as int) =~= queen_rows@);
    assert(deal(positions_pending@, draws@.skip(taken as int)) =~= Seq::<usize>::empty());
    assert(queen_rows@ =~= whole);
    queen_rows
}

/// Two distinct pseudorandom columns below `n`: a first column, then a
/// second one drawn among the other `n - 1`, as [`distinct_pair`] maps them.
/// The second column is not redrawn until it differs from the first: the
/// pair has the same uniform distribution, but the search always takes two
/// draws, so a seed gives other pairs than a redrawing search would.
pub fn random_distinct_pair(rng: &mut rand::StdRng, n: usize) -> (r: (usize, usize))
    requires
        n > 1,
    ensures
        r.0 < n,
        r.1 < n,
        r.0 != r.1,
{
    let first = random_below(rng, n);
    let other = random_below(rng, n - 1);
    distinct_pair(first, other)
}

/// The pair of distinct columns that two draws stand for: the first column,
/// and the second drawn among the other columns, so skipping the first.
pub fn distinct_pair(first: usize, other: usize) -> (r: (usize, usize))
    requires
        other < usize::MAX,
    ensures
        r == (first, if other >= first { (other + 1) as usize } else { other }),
{
    let second = if other >= first {
        other + 1
    } else {
        other
    };
    (first, second)
}

/// Exchanges the values at `i` and `j`.
pub fn swap_rows(v: &mut Vec<usize>, i: usize, j: usize)
    requires
        i < old(v)@.len(),
        j < old(v)@.len(),
    ensures
        final(v)@ == swapped(old(v)@, i as int, j as int),
{
    let a = v[i];
    let b = v[j];
    v.set(i, b);
    v.set(j, a);
}

/// A copy of `v`, element by element.
pub fn copy_rows(v: &Vec<usize>) -> (r: Vec<usize>)
    ensures
        r@ == v@,
{
    let mut r: Vec<usize> = Vec::new();
    let mut i: usize = 0;
    while i < v.len()
        invariant
            i <= v@.len(),
            r@ == v@.subrange(0, i as int),
        decreases v@.len() - i,
    {
        r.push(v[i]);
        i = i + 1;
    }
    assert(r@ =~= v@);
    r
}

} // verus!
