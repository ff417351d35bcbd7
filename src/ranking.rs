use vstd::prelude::*;

verus! {

/// Entry `a` of `scores` comes before entry `b`: a lower score, or the same
/// score and an earlier index. This is the order of a stable sort by score.
pub open spec fn ranks_before(scores: Seq<usize>, a: int, b: int) -> bool {
    scores[a] < scores[b] || (scores[a] == scores[b] && a < b)
}

/// `r` lists, best first, the indices of the `k` best entries of `scores`
/// (all of them where there are fewer): the first `k` indices of a stable
/// sort of `scores`.
pub open spec fn is_best_prefix(scores: Seq<usize>, k: nat, r: Seq<usize>) -> bool {
    &&& r.len() == if k < scores.len() { k } else { scores.len() }
    &&& forall|t: int| 0 <= t < r.len() ==> #[trigger] r[t] < scores.len()
    &&& forall|t1: int, t2: int|
        0 <= t1 < t2 < r.len() ==> ranks_before(scores, #[trigger] r[t1] as int, #[trigger] r[t2] as int)
    &&& forall|u: int, t: int|
        0 <= u < scores.len() && !r.contains(u as usize) && 0 <= t < r.len() ==> #[trigger] ranks_before(
            scores,
            r[t] as int,
            u,
        )
}

/// The first index of a best prefix has the lowest score of all.
pub proof fn lemma_first_is_lowest(scores: Seq<usize>, k: nat, order: Seq<usize>, u: int)
    requires
        is_best_prefix(scores, k, order),
        order.len() > 0,
        0 <= u < scores.len(),
        scores.len() <= usize::MAX,
    ensures
        scores[order[0] as int] <= scores[u],
{
    if order.contains(u as usize) {
        let w = choose|w: int| 0 <= w < order.len() && order[w] == u as usize;
        if w > 0 {
            assert(ranks_before(scores, order[0] as int, order[w] as int));
        }
    } else {
        assert(ranks_before(scores, order[0] as int, u));
    }
}

/// The indices of the `k` lowest scores, lowest first, ties in index order.
pub fn best_indices(scores: &Vec<usize>, k: usize) -> (r: Vec<usize>)
    ensures
        is_best_prefix(scores@, k as nat, r@),
{
    let n = scores.len();
    let mut r: Vec<usize> = Vec::new();
    let mut u: usize = 0;
    while u < n
        invariant
            n == scores@.len(),
            u <= n,
            r@.len() == if k < u { k as int } else { u as int },
            forall|t: int| 0 <= t < r@.len() ==> #[trigger] r@[t] < u,
            forall|t1: int, t2: int|
                0 <= t1 < t2 < r@.len() ==> ranks_before(scores@, #[trigger] r@[t1] as int, #[trigger] r@[t2] as int),
            forall|v: int, t: int|
                0 <= v < u && !r@.contains(v as usize) && 0 <= t < r@.len() ==> #[trigger] ranks_before(
                    scores@,
                    r@[t] as int,
                    v,
                ),
            r@.len() < k ==> forall|v: int| 0 <= v < u ==> #[trigger] r@.contains(v as usize),
        decreases n - u,
    {
        let mut pos: usize = 0;
        while pos < r.len() && scores[r[pos]] <= scores[u]
            invariant
                n == scores@.len(),
                u < n,
                pos <= r@.len(),
                forall|t: int| 0 <= t < r@.len() ==> #[trigger] r@[t] < u,
                forall|t: int| 0 <= t < pos ==> scores@[#[trigger] r@[t] as int] <= scores@[u as int],
            decreases r@.len() - pos,
        {
            pos = pos + 1;
        }
        let ghost old_r = r@;
        proof {
            assert forall|t: int| pos <= t < old_r.len() implies ranks_before(scores@, u as int, #[trigger] old_r[t] as int) by {
                if t > pos {
                    assert(ranks_before(scores@, old_r[pos as int] as int, old_r[t] as int));
                }
            }
        }
        if r.len() < k {
            r.insert(pos, u);
            proof {
                let nr = r@;
                assert forall|t: int| 0 <= t < nr.len() implies #[trigger] nr[t] == if t < pos {
                    old_r[t]
                } else if t == pos {
                    u
                } else {
                    old_r[t - 1]
                } by {}
                assert forall|v: int| 0 <= v < u + 1 implies #[trigger] nr.contains(v as usize) by {
                    if v == u {
                        assert(nr[pos as int] == u);
                    } else {
                        assert(old_r.contains(v as usize));
                        let t = choose|t: int| 0 <= t < old_r.len() && old_r[t] == v as usize;
                        if t < pos {
                            assert(nr[t] == v as usize);
                        } else {
                            assert(nr[t + 1] == v as usize);
                        }
                    }
                }
                assert forall|t1: int, t2: int|
                    0 <= t1 < t2 < nr.len() implies ranks_before(scores@, #[trigger] nr[t1] as int, #[trigger] nr[t2] as int) by {
                    if t1 < pos && t2 == pos {
                    } else if t1 == pos && t2 > pos {
                        assert(ranks_before(scores@, u as int, old_r[t2 - 1] as int));
                    } else if t1 < pos && t2 > pos {
                        assert(ranks_before(scores@, old_r[t1] as int, old_r[t2 - 1] as int));
                    } else if t1 > pos {
                        assert(ranks_before(scores@, old_r[t1 - 1] as int, old_r[t2 - 1] as int));
                    }
                }
            }
        } else if pos < r.len() {
            r.insert(pos, u);
            let ghost mid = r@;
            r.pop();
            proof {
                let nr = r@;
                assert(nr =~= mid.subrange(0, k as int));
                assert forall|t: int| 0 <= t < mid.len() implies #[trigger] mid[t] == if t < pos {
                    old_r[t]
                } else if t == pos {
                    u
                } else {
                    old_r[t - 1]
                } by {}
                assert forall|t1: int, t2: int|
                    0 <= t1 < t2 < mid.len() implies ranks_before(scores@, #[trigger] mid[t1] as int, #[trigger] mid[t2] as int) by {
                    if t1 < pos && t2 == pos {
                    } else if t1 == pos && t2 > pos {
                        assert(ranks_before(scores@, u as int, old_r[t2 - 1] as int));
                    } else if t1 < pos && t2 > pos {
                        assert(ranks_before(scores@, old_r[t1] as int, old_r[t2 - 1] as int));
                    } else if t1 > pos {
                        assert(ranks_before(scores@, old_r[t1 - 1] as int, old_r[t2 - 1] as int));
                    }
                }
                let last = old_r[old_r.len() - 1];
                assert(mid[k as int] == last);
                assert forall|v: int, t: int|
                    0 <= v < u + 1 && !nr.contains(v as usize) && 0 <= t < nr.len() implies #[trigger] ranks_before(
                        scores@,
                        nr[t] as int,
                        v,
                    ) by {
                    assert(nr[t] == mid[t]);
                    if v == last as int {
                        assert(ranks_before(scores@, mid[t] as int, mid[k as int] as int));
                    } else if v == u as int {
                        assert(nr[pos as int] == u);
                    } else {
                        if old_r.contains(v as usize) {
                            let w = choose|w: int| 0 <= w < old_r.len() && old_r[w] == v as usize;
                            if w < pos {
                                assert(nr[w] == v as usize);
                            } else if w + 1 < k {
                                assert(nr[w + 1] == v as usize);
                            } else {
                                assert(old_r[w] == last);
                            }
                        } else {
                            assert(ranks_before(scores@, old_r[old_r.len() - 1] as int, v));
                            assert(scores@[u as int] < scores@[old_r[pos as int] as int]);
                            assert(ranks_before(scores@, old_r[pos as int] as int, last as int) || pos == old_r.len() - 1);
                            if t < pos {
                                assert(ranks_before(scores@, old_r[t] as int, v));
                            } else if t > pos {
                                assert(ranks_before(scores@, old_r[t - 1] as int, v));
                            }
                        }
                    }
                }
                assert forall|t: int| 0 <= t < nr.len() implies #[trigger] nr[t] < u + 1 by {
                    assert(nr[t] == mid[t]);
                }
            }
        } else {
            proof {
                assert forall|v: int, t: int|
                    0 <= v < u + 1 && !r@.contains(v as usize) && 0 <= t < r@.len() implies #[trigger] ranks_before(
                        scores@,
                        r@[t] as int,
                        v,
                    ) by {
                    if v == u as int {
                        assert(scores@[r@[t] as int] <= scores@[u as int]);
                    }
                }
            }
        }
        u = u + 1;
    }
    r
}

} // verus!
