use crate::board::{
    hits, is_permutation, is_solution, lemma_non_attacking_score_zero, lemma_solution_is_permutation,
    position_check,
    valid_partial, conflict_count, GenericChallengeState,
};
use crate::solution::Solution;
use vstd::prelude::*;

verus! {

/// Whether some solution of the `n`-queens problem starts with the placement `p`.
pub open spec fn has_completion(p: Seq<usize>, n: nat) -> bool {
    exists|s: Seq<usize>| is_solution(s, n) && #[trigger] s.subrange(0, p.len() as int) == p
}

/// `a` equals `b` or comes before it in lexicographic order.
pub open spec fn lex_le(a: Seq<usize>, b: Seq<usize>) -> bool {
    a == b || exists|k: int| 0 <= k < a.len() && #[trigger] a.subrange(0, k) == b.subrange(0, k) && a[k] < b[k]
}

/// Whether a queen on `row` of the column after the placement `p` is out of
/// the way of every queen of `p`.
pub open spec fn placeable(p: Seq<usize>, row: usize) -> bool {
    forall|x: int| 0 <= x < p.len() ==> #[trigger] position_check((p.len() as usize, row), (x as usize, p[x])) is Ok
}

/// A depth-first, row-by-row search that places one column at a time and
/// backs up when a column has no free row left.
pub struct ConstraintPropagation {
    base: GenericChallengeState,
    reports: Ghost<Seq<(Seq<usize>, nat)>>,
}

/// `b` is `a` with one queen added in the next column, or with the queen of
/// its last column removed.
pub open spec fn one_step(a: Seq<usize>, b: Seq<usize>) -> bool {
    ||| b.len() == a.len() + 1 && b.subrange(0, a.len() as int) == a
    ||| a.len() == b.len() + 1 && b == a.subrange(0, b.len() as int)
}

/// The placement that a sequence of reports leaves, starting from `start`.
pub open spec fn trace_end(start: Seq<usize>, trace: Seq<(Seq<usize>, nat)>) -> Seq<usize> {
    if trace.len() == 0 {
        start
    } else {
        trace.last().0
    }
}

/// What a backtracking search from `start` on an `n`-board reports: each
/// report has score 0, is a placement with no two queens attacking each
/// other, and is one step from the placement before it.
#[verifier::opaque]
pub open spec fn search_trace(start: Seq<usize>, trace: Seq<(Seq<usize>, nat)>, n: nat) -> bool {
    forall|k: int|
        0 <= k < trace.len() ==> report_ok(
            if k == 0 {
                start
            } else {
                trace[k - 1].0
            },
            #[trigger] trace[k],
            n,
        )
}

/// One report of a backtracking search after the placement `prev`: score 0,
/// a placement with no two queens attacking each other, one step from `prev`.
#[verifier::opaque]
pub open spec fn report_ok(prev: Seq<usize>, report: (Seq<usize>, nat), n: nat) -> bool {
    report.1 == 0 && valid_partial(report.0, n) && one_step(prev, report.0)
}

/// A single report after `prev` that is in order is a trace from `prev`; so
/// is the empty trace.
proof fn lemma_trace_single(prev: Seq<usize>, report: (Seq<usize>, nat), n: nat)
    requires
        report.1 == 0,
        valid_partial(report.0, n),
        one_step(prev, report.0),
    ensures
        search_trace(prev, seq![report], n),
        search_trace(prev, Seq::empty(), n),
        trace_end(prev, seq![report]) == report.0,
{
    reveal(search_trace);
    reveal(report_ok);
    assert(seq![report][0] == report);
}

proof fn lemma_trace_concat(start: Seq<usize>, a: Seq<(Seq<usize>, nat)>, b: Seq<(Seq<usize>, nat)>, n: nat)
    requires
        search_trace(start, a, n),
        search_trace(trace_end(start, a), b, n),
    ensures
        search_trace(start, a + b, n),
        trace_end(start, a + b) == trace_end(trace_end(start, a), b),
{
    reveal(search_trace);
    let c = a + b;
    assert forall|k: int| 0 <= k < c.len() implies report_ok(
        if k == 0 {
            start
        } else {
            c[k - 1].0
        },
        #[trigger] c[k],
        n,
    ) by {
        if k < a.len() {
            assert(c[k] == a[k]);
            if k > 0 {
                assert(c[k - 1] == a[k - 1]);
            }
        } else {
            let j = k - a.len();
            assert(c[k] == b[j]);
            if j > 0 {
                assert(c[k - 1] == b[j - 1]);
            } else if a.len() > 0 {
                assert(c[k - 1] == a.last());
            }
        }
    }
    if b.len() > 0 {
        assert(c.last() == b.last());
    } else {
        assert(c =~= a);
    }
}

/// A solution that starts with `p` cannot put a row that is not placeable
/// after `p` in the next column.
proof fn lemma_blocked(s: Seq<usize>, p: Seq<usize>, n: nat, row: usize)
    requires
        s.subrange(0, p.len() as int) == p,
        p.len() < s.len(),
        p.len() <= usize::MAX,
        s[p.len() as int] == row,
        !placeable(p, row),
    ensures
        !is_solution(s, n),
{
    let len = p.len() as int;
    let x = choose|x: int| 0 <= x < p.len() && !(#[trigger] position_check((p.len() as usize, row), (x as usize, p[x])) is Ok);
    assert(s[x] == s.subrange(0, len)[x]);
    assert(hits(s, x, len));
}

impl ConstraintPropagation {
    /// The board dimension.
    pub closed spec fn dimension(&self) -> nat {
        self.base.size as nat
    }

    /// The queens placed so far.
    pub closed spec fn rows(&self) -> Seq<usize> {
        self.base.queen_rows@
    }

    /// A search on a board of dimension `size`, with no queen placed.
    pub fn new(size: usize, config: ()) -> (r: Self)
        ensures
            r.dimension() == size,
            r.rows() == Seq::<usize>::empty(),
    {
        ConstraintPropagation { base: GenericChallengeState::unpositioned(size), reports: Ghost(Seq::empty()) }
    }

    /// Checks whether a queen at `p1` is in the way of a queen at `p2`, both
    /// given as (column, row), and says why.
    pub fn can_position(&self, p1: (usize, usize), p2: (usize, usize)) -> (r: Result<
        (),
        crate::board::PositionError,
    >)
        ensures
            r == position_check(p1, p2),
    {
        self.base.can_position(p1, p2)
    }

    /// The first row at or after `row` where a queen in the next free column
    /// is out of the way of every queen placed so far.
    fn position_next_queen_from_row(&self, from: usize) -> (r: Result<usize, ()>)
        ensures
            r matches Ok(found) ==> from <= found < self.base.size && placeable(
                self.base.queen_rows@,
                found,
            ),
            forall|k: usize|
                from <= k < self.base.size && (r matches Ok(found) ==> k < found) ==> !#[trigger] placeable(
                    self.base.queen_rows@,
                    k,
                ),
    {
        let mut row = from;
        while row < self.base.size
            invariant
                from <= row,
                forall|k: usize| from <= k < row ==> !#[trigger] placeable(self.base.queen_rows@, k),
            decreases self.base.size - row,
        {
            if self.base.queen_can_be_positioned_at((self.base.queen_rows.len(), row)) {
                assert(placeable(self.base.queen_rows@, row));
                return Ok(row);
            }
            assert(!placeable(self.base.queen_rows@, row));
            row = row + 1;
        }
        Err(())
    }

    /// Extends the placement to a full solution, trying rows in increasing
    /// order in each column, and reports each placed or removed queen.
    /// On failure the placement is left as it was.
    #[verifier::spinoff_prover]
    #[verifier::rlimit(60)]
    fn extend<F: Fn(&[usize], usize)>(&mut self, callback: &F) -> (found: bool)
        requires
            valid_partial(old(self).base.queen_rows@, old(self).base.size as nat),
            forall|a: &[usize], s: usize| callback.requires((a, s)),
        ensures
            final(self).base.size == old(self).base.size,
            found ==> is_solution(final(self).base.queen_rows@, old(self).base.size as nat)
                && final(self).base.queen_rows@.subrange(0, old(self).base.queen_rows@.len() as int)
                == old(self).base.queen_rows@,
            found ==> forall|s: Seq<usize>|
                is_solution(s, old(self).base.size as nat) && #[trigger] s.subrange(
                    0,
                    old(self).base.queen_rows@.len() as int,
                ) == old(self).base.queen_rows@ ==> lex_le(final(self).base.queen_rows@, s),
            !found ==> final(self).base.queen_rows@ == old(self).base.queen_rows@
                && !has_completion(old(self).base.queen_rows@, old(self).base.size as nat),
            final(self).reports@.len() >= old(self).reports@.len(),
            final(self).reports@ == old(self).reports@ + final(self).reports@.subrange(
                old(self).reports@.len() as int,
                final(self).reports@.len() as int,
            ),
            search_trace(
                old(self).base.queen_rows@,
                final(self).reports@.subrange(old(self).reports@.len() as int, final(self).reports@.len() as int),
                old(self).base.size as nat,
            ),
            trace_end(
                old(self).base.queen_rows@,
                final(self).reports@.subrange(old(self).reports@.len() as int, final(self).reports@.len() as int),
            ) == final(self).base.queen_rows@,
            old(self).base.queen_rows@.len() == old(self).base.size ==> final(self).reports@ == old(self).reports@,
        decreases old(self).base.size - old(self).base.queen_rows@.len(),
    {
        let n = self.base.size;
        let len = self.base.queen_rows.len();
        let ghost base_reports = self.reports@;
        let ghost mut added: Seq<(Seq<usize>, nat)> = Seq::empty();
        assert(self.reports@ =~= base_reports + added);
        assert(self.reports@.subrange(base_reports.len() as int, self.reports@.len() as int) =~= added);
        proof {
            reveal(search_trace);
        }
        if len == n {
            assert(self.base.queen_rows@.subrange(0, len as int) =~= self.base.queen_rows@);
            assert forall|s: Seq<usize>|
                is_solution(s, n as nat) && #[trigger] s.subrange(0, len as int) == self.base.queen_rows@ implies lex_le(
                    self.base.queen_rows@,
                    s,
                ) by {
                assert(s.subrange(0, len as int) =~= s);
            }
            return true;
        }
        let ghost p = self.base.queen_rows@;
        let mut row: usize = 0;
        loop
            invariant
                self.base.size == n,
                n == old(self).base.size,
                len == old(self).base.queen_rows@.len(),
                len < n,
                row <= n,
                self.base.queen_rows@ == p,
                p.len() == len,
                p == old(self).base.queen_rows@,
                valid_partial(p, n as nat),
                forall|a: &[usize], s: usize| callback.requires((a, s)),
                forall|s: Seq<usize>|
                    is_solution(s, n as nat) && #[trigger] s.subrange(0, len as int) == p ==> s[len as int] >= row,
                base_reports == old(self).reports@,
                self.reports@ == base_reports + added,
                search_trace(p, added, n as nat),
                trace_end(p, added) == p,
            decreases n - row,
        {
            let found = self.position_next_queen_from_row(row);
            match found {
                Ok(pos) => {
                    proof {
                        assert forall|s: Seq<usize>|
                            is_solution(s, n as nat) && #[trigger] s.subrange(0, len as int) == p implies s[len as int] >= pos by {
                            if s[len as int] < pos {
                                lemma_blocked(s, p, n as nat, s[len as int]);
                            }
                        }
                    }
                    self.base.queen_rows.push(pos);
                    proof {
                        let q = self.base.queen_rows@;
                        assert forall|i: int, j: int| 0 <= i < j < q.len() implies !#[trigger] hits(q, i, j) by {
                            if j < len {
                                assert(q[i] == p[i] && q[j] == p[j]);
                                assert(!hits(p, i, j));
                            } else {
                                assert(position_check((len, pos), (i as usize, p[i])) is Ok);
                            }
                        }
                    }
                    callback(self.base.queen_rows.as_slice(), 0);
                    let ghost pushed = self.base.queen_rows@;
                    proof {
                        let one = seq![(pushed, 0nat)];
                        assert(pushed.subrange(0, len as int) =~= p);
                        assert(valid_partial(pushed, n as nat));
                        lemma_trace_single(p, (pushed, 0nat), n as nat);
                        lemma_trace_concat(p, added, one, n as nat);
                        added = added + one;
                    }
                    self.reports = Ghost(self.reports@.push((pushed, 0nat)));
                    assert(self.reports@ =~= base_reports + added);
                    let ghost mid_len = self.reports@.len();
                    if self.extend(callback) {
                        proof {
                            let f = self.base.queen_rows@;
                            assert(f.subrange(0, len as int) =~= f.subrange(0, len + 1).subrange(0, len as int));
                            assert(p.push(pos).subrange(0, len as int) =~= p);
                            assert(f[len as int] == f.subrange(0, len + 1)[len as int]);
                            assert forall|s: Seq<usize>|
                                is_solution(s, n as nat) && #[trigger] s.subrange(0, len as int) == p implies lex_le(f, s) by {
                                if s[len as int] == pos {
                                    assert(s.subrange(0, len + 1) =~= p.push(pos));
                                } else {
                                    assert(f.subrange(0, len as int) == s.subrange(0, len as int));
                                    assert(f[len as int] < s[len as int]);
                                }
                            }
                            let b = self.reports@.subrange(mid_len as int, self.reports@.len() as int);
                            lemma_trace_concat(p, added, b, n as nat);
                            assert(self.reports@ =~= base_reports + (added + b));
                            assert(self.reports@.subrange(base_reports.len() as int, self.reports@.len() as int) =~= added + b);
                        }
                        return true;
                    }
                    proof {
                        let b = self.reports@.subrange(mid_len as int, self.reports@.len() as int);
                        lemma_trace_concat(p, added, b, n as nat);
                        added = added + b;
                        assert(self.reports@ =~= base_reports + added);
                    }
                    let _ = self.base.queen_rows.pop();
                    assert(self.base.queen_rows@ =~= p);
                    callback(self.base.queen_rows.as_slice(), 0);
                    proof {
                        let one = seq![(p, 0nat)];
                        assert(p =~= pushed.subrange(0, p.len() as int));
                        lemma_trace_single(pushed, (p, 0nat), n as nat);
                        lemma_trace_concat(p, added, one, n as nat);
                        added = added + one;
                    }
                    self.reports = Ghost(self.reports@.push((p, 0nat)));
                    assert(self.reports@ =~= base_reports + added);
                    proof {
                        assert forall|s: Seq<usize>|
                            is_solution(s, n as nat) && #[trigger] s.subrange(0, len as int) == p implies s[len as int] >= pos + 1 by {
                            if s[len as int] == pos {
                                assert(s.subrange(0, len + 1) =~= p.push(pos));
                            }
                        }
                    }
                    row = pos + 1;
                },
                Err(()) => {
                    proof {
                        assert forall|s: Seq<usize>|
                            is_solution(s, n as nat) && #[trigger] s.subrange(0, len as int) == p implies false by {
                            lemma_blocked(s, p, n as nat, s[len as int]);
                        }
                    }
                    assert(self.reports@.subrange(base_reports.len() as int, self.reports@.len() as int) =~= added);
                    return false;
                },
            }
        }
    }

    /// Runs the search, reporting with score 0 each placement that a queen is
    /// added to or removed from. Returns the first solution in lexicographic
    /// order, or, where there is none, the empty placement.
    pub fn solve_with_callback<F: Fn(&[usize], usize)>(self, callback: F) -> (r: Solution)
        requires
            self.rows() == Seq::<usize>::empty(),
            forall|a: &[usize], s: usize| callback.requires((a, s)),
        ensures
            r.score == conflict_count(r.queen_rows@),
            r.queen_rows@.len() == self.dimension() ==> is_solution(r.queen_rows@, self.dimension()) && r.score == 0,
            r.queen_rows@.len() == self.dimension() ==> is_permutation(r.queen_rows@, self.dimension()),
            r.queen_rows@.len() == self.dimension() ==> forall|s: Seq<usize>| is_solution(s, self.dimension()) ==> lex_le(r.queen_rows@, s),
            r.queen_rows@.len() != self.dimension() ==> r.queen_rows@.len() == 0 && forall|s: Seq<usize>| !is_solution(s, self.dimension()),
            search_trace(Seq::empty(), r.reports@, self.dimension()),
            trace_end(Seq::empty(), r.reports@) == r.queen_rows@,
            self.dimension() == 0 ==> r.reports@.len() == 0,
    {
        let mut this = self;
        this.reports = Ghost(Seq::empty());
        let found = this.extend(&callback);
        proof {
            if found {
                lemma_non_attacking_score_zero(this.base.queen_rows@);
                lemma_solution_is_permutation(this.base.queen_rows@, self.dimension());
                assert forall|s: Seq<usize>| is_solution(s, self.dimension()) implies lex_le(this.base.queen_rows@, s) by {
                    assert(s.subrange(0, 0) =~= Seq::<usize>::empty());
                }
            } else {
                assert forall|s: Seq<usize>| !is_solution(s, self.dimension()) by {
                    if is_solution(s, self.dimension()) {
                        assert(s.subrange(0, 0) =~= Seq::<usize>::empty());
                    }
                }
            }
        }
        let ghost trace = this.reports@;
        assert(trace.subrange(0, trace.len() as int) =~= trace);
        let mut r = Solution::new(this.base.queen_rows, 0);
        r.reports = Ghost(trace);
        r
    }

    /// Runs the search with no reporting.
    pub fn solve(self) -> (r: Solution)
        requires
            self.rows() == Seq::<usize>::empty(),
        ensures
            r.score == conflict_count(r.queen_rows@),
            r.queen_rows@.len() == self.dimension() ==> is_solution(r.queen_rows@, self.dimension()) && r.score == 0,
            r.queen_rows@.len() == self.dimension() ==> is_permutation(r.queen_rows@, self.dimension()),
            r.queen_rows@.len() == self.dimension() ==> forall|s: Seq<usize>| is_solution(s, self.dimension()) ==> lex_le(r.queen_rows@, s),
            r.queen_rows@.len() != self.dimension() ==> r.queen_rows@.len() == 0 && forall|s: Seq<usize>| !is_solution(s, self.dimension()),
            search_trace(Seq::empty(), r.reports@, self.dimension()),
            trace_end(Seq::empty(), r.reports@) == r.queen_rows@,
            self.dimension() == 0 ==> r.reports@.len() == 0,
    {
        self.solve_with_callback(|a: &[usize], s: usize| {})
    }
}

} // verus!
