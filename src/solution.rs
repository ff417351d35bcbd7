use vstd::prelude::*;

verus! {

/// The outcome of a search: the row of the queen in each column, and the
/// number of attacking pairs among them. `reports` records, in order, the
/// placements and scores that the search passed to its progress callback.
pub struct Solution {
    pub queen_rows: Vec<usize>,
    pub score: usize,
    pub reports: Ghost<Seq<(Seq<usize>, nat)>>,
}

impl Solution {
    pub fn new(queen_rows: Vec<usize>, score: usize) -> (r: Self)
        ensures
            r.queen_rows@ == queen_rows@,
            r.score == score,
            r.reports@ == Seq::<(Seq<usize>, nat)>::empty(),
    {
        Solution { queen_rows: queen_rows, score: score, reports: Ghost(Seq::empty()) }
    }
}

} // verus!
