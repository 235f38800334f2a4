//! Choosing the best of a list of candidates: those of the lowest cost, and
//! among those of one cost the ones that stand first.

use vstd::prelude::*;

verus! {

/// The candidate at `p` is chosen before the one at `q`: it costs less, or
/// the same and stands before it.
pub open spec fn comes_before(costs: Seq<i128>, p: int, q: int) -> bool {
    costs[p] < costs[q] || (costs[p] == costs[q] && p < q)
}

/// `picks` names the `count` best candidates, the best first; all of them
/// where there are fewer.
pub open spec fn is_ranking(costs: Seq<i128>, count: nat, picks: Seq<usize>) -> bool {
    &&& picks.len() == if count <= costs.len() {
        count
    } else {
        costs.len()
    }
    &&& forall|k: int| 0 <= k < picks.len() ==> (#[trigger] picks[k]) < costs.len()
    &&& forall|k: int, l: int|
        0 <= k < l < picks.len() ==> comes_before(
            costs,
            (#[trigger] picks[k]) as int,
            (#[trigger] picks[l]) as int,
        )
    &&& forall|k: int, q: usize|
        0 <= k < picks.len() && q < costs.len() && !(#[trigger] picks.contains(q))
            ==> comes_before(costs, (#[trigger] picks[k]) as int, q as int)
}

/// The positions of the `count` best candidates, the best first.
pub open spec fn ranking(costs: Seq<i128>, count: nat) -> Seq<usize> {
    choose|picks: Seq<usize>| is_ranking(costs, count, picks)
}

proof fn lemma_not_earlier(costs: Seq<i128>, count: nat, a: Seq<usize>, b: Seq<usize>, k: int)
    requires
        is_ranking(costs, count, a),
        is_ranking(costs, count, b),
        0 <= k < a.len(),
        forall|j: int| 0 <= j < k ==> a[j] == b[j],
    ensures
        !comes_before(costs, a[k] as int, b[k] as int),
{
    if comes_before(costs, a[k] as int, b[k] as int) {
        if b.contains(a[k]) {
            let l = choose|l: int| 0 <= l < b.len() && b[l] == a[k];
            if l < k {
                assert(comes_before(costs, a[l] as int, a[k] as int));
            } else if l > k {
                assert(comes_before(costs, b[k] as int, b[l] as int));
            }
        } else {
            assert(comes_before(costs, b[k] as int, a[k] as int));
        }
    }
}

proof fn lemma_same_prefix(costs: Seq<i128>, count: nat, a: Seq<usize>, b: Seq<usize>, k: int)
    requires
        is_ranking(costs, count, a),
        is_ranking(costs, count, b),
        0 <= k <= a.len(),
    ensures
        forall|j: int| 0 <= j < k ==> a[j] == b[j],
    decreases k,
{
    if k > 0 {
        lemma_same_prefix(costs, count, a, b, k - 1);
        lemma_not_earlier(costs, count, a, b, k - 1);
        lemma_not_earlier(costs, count, b, a, k - 1);
        assert(a[k - 1] < costs.len() && b[k - 1] < costs.len());
    }
}

/// There is one ranking only: the choice does not depend on how it is made.
pub proof fn lemma_ranking_unique(costs: Seq<i128>, count: nat, a: Seq<usize>, b: Seq<usize>)
    requires
        is_ranking(costs, count, a),
        is_ranking(costs, count, b),
    ensures
        a == b,
{
    lemma_same_prefix(costs, count, a, b, a.len() as int);
    assert(a =~= b);
}

/// `picks` names every candidate once, the best first.
spec fn is_full_ranking(costs: Seq<i128>, picks: Seq<usize>) -> bool {
    &&& picks.len() == costs.len()
    &&& forall|k: int| 0 <= k < picks.len() ==> (#[trigger] picks[k]) < costs.len()
    &&& forall|k: int, l: int|
        0 <= k < l < picks.len() ==> comes_before(
            costs,
            (#[trigger] picks[k]) as int,
            (#[trigger] picks[l]) as int,
        )
    &&& forall|q: usize| q < costs.len() ==> #[trigger] picks.contains(q)
}

/// Where the last candidate belongs among the others, which are ranked:
/// behind all that cost no more than it.
proof fn place_of_last(costs: Seq<i128>, ranked: Seq<usize>, from: int) -> (place: int)
    requires
        costs.len() > 0,
        0 <= from <= ranked.len(),
        forall|k: int| 0 <= k < ranked.len() ==> (#[trigger] ranked[k]) < costs.len() - 1,
        forall|k: int| 0 <= k < from ==> costs[(#[trigger] ranked[k]) as int] <= costs.last(),
    ensures
        from <= place <= ranked.len(),
        forall|k: int| 0 <= k < place ==> costs[(#[trigger] ranked[k]) as int] <= costs.last(),
        place < ranked.len() ==> costs[ranked[place] as int] > costs.last(),
    decreases ranked.len() - from,
{
    if from < ranked.len() && costs[ranked[from] as int] <= costs.last() {
        place_of_last(costs, ranked, from + 1)
    } else {
        from
    }
}

proof fn full_ranking(costs: Seq<i128>) -> (picks: Seq<usize>)
    requires
        costs.len() <= usize::MAX,
    ensures
        is_full_ranking(costs, picks),
    decreases costs.len(),
{
    if costs.len() == 0 {
        Seq::empty()
    } else {
        let shorter = costs.drop_last();
        let ranked = full_ranking(shorter);
        let last = (costs.len() - 1) as usize;
        assert forall|k: int| 0 <= k < ranked.len() implies (#[trigger] ranked[k]) < costs.len()
            - 1 by {}
        let place = place_of_last(costs, ranked, 0);
        let picks = ranked.insert(place, last);
        assert forall|k: int, l: int| 0 <= k < l < picks.len() implies comes_before(
            costs,
            (#[trigger] picks[k]) as int,
            (#[trigger] picks[l]) as int,
        ) by {
            if k == place {
                assert(picks[l] == ranked[l - 1]);
                if l - 1 > place {
                    assert(comes_before(shorter, ranked[place] as int, ranked[l - 1] as int));
                }
                assert(costs[ranked[l - 1] as int] == shorter[ranked[l - 1] as int]);
                assert(costs[ranked[place] as int] == shorter[ranked[place] as int]);
            } else if l == place {
                assert(picks[k] == ranked[k]);
            } else {
                let a = if k < place {
                    k
                } else {
                    k - 1
                };
                let b = if l < place {
                    l
                } else {
                    l - 1
                };
                assert(picks[k] == ranked[a] && picks[l] == ranked[b]);
                assert(comes_before(shorter, ranked[a] as int, ranked[b] as int));
                assert(costs[ranked[a] as int] == shorter[ranked[a] as int]);
                assert(costs[ranked[b] as int] == shorter[ranked[b] as int]);
            }
        }
        assert forall|q: usize| q < costs.len() implies #[trigger] picks.contains(q) by {
            if q == last {
                assert(picks[place] == q);
            } else {
                assert(ranked.contains(q));
                let at = choose|at: int| 0 <= at < ranked.len() && ranked[at] == q;
                let now = if at < place {
                    at
                } else {
                    at + 1
                };
                assert(picks[now] == q);
            }
        }
        assert forall|k: int| 0 <= k < picks.len() implies (#[trigger] picks[k]) < costs.len() by {
            if k < place {
                assert(picks[k] == ranked[k]);
            } else if k > place {
                assert(picks[k] == ranked[k - 1]);
            }
        }
        picks
    }
}

/// Every list of candidates has a ranking: `ranking` names one, and so the
/// only one.
pub proof fn lemma_ranking_exists(costs: Seq<i128>, count: nat)
    requires
        costs.len() <= usize::MAX,
    ensures
        is_ranking(costs, count, ranking(costs, count)),
{
    let full = full_ranking(costs);
    let take: int = if count <= costs.len() {
        count as int
    } else {
        costs.len() as int
    };
    let picks = full.take(take);
    assert forall|k: int, q: usize|
        0 <= k < picks.len() && q < costs.len() && !(#[trigger] picks.contains(
            q,
        )) implies comes_before(costs, (#[trigger] picks[k]) as int, q as int) by {
        assert(full.contains(q));
        let at = choose|at: int| 0 <= at < full.len() && full[at] == q;
        if at < take {
            assert(picks[at] == q);
        }
        assert(picks[k] == full[k]);
    }
    assert forall|k: int, l: int| 0 <= k < l < picks.len() implies comes_before(
        costs,
        (#[trigger] picks[k]) as int,
        (#[trigger] picks[l]) as int,
    ) by {
        assert(picks[k] == full[k] && picks[l] == full[l]);
    }
    assert(is_ranking(costs, count, picks));
}

/// Ranks the candidates by cost and picks the `count` best of them, the best
/// first. Candidates of one cost are picked in the order in which they stand.
pub fn rank_lowest(costs: &Vec<i128>, count: usize) -> (picks: Vec<usize>)
    ensures
        is_ranking(costs@, count as nat, picks@),
        picks@ == ranking(costs@, count as nat),
{
    let ghost all = costs@;
    let mut rest: Vec<usize> = Vec::new();
    let mut q: usize = 0;
    while q < costs.len()
        invariant
            0 <= q <= costs.len(),
            rest.len() == q,
            forall|r: int| 0 <= r < q ==> (#[trigger] rest@[r]) == r,
        decreases costs.len() - q,
    {
        rest.push(q);
        q += 1;
    }
    let mut picks: Vec<usize> = Vec::new();
    proof {
        assert forall|p: usize| p < all.len() implies (#[trigger] picks@.contains(p)
            <==> !rest@.contains(p)) by {
            assert(rest@[p as int] == p);
        }
    }
    while picks.len() < count && rest.len() > 0
        invariant
            all == costs@,
            picks.len() <= count,
            picks.len() + rest.len() == all.len(),
            is_ranking(all, picks.len() as nat, picks@),
            forall|r: int| 0 <= r < rest.len() ==> (#[trigger] rest@[r]) < all.len(),
            forall|r: int, t: int| 0 <= r < t < rest.len() ==> rest@[r] < rest@[t],
            forall|p: usize| p < all.len() ==> (#[trigger] picks@.contains(p)
                <==> !rest@.contains(p)),
        decreases rest.len(),
    {
        let mut best: usize = 0;
        let mut r: usize = 1;
        while r < rest.len()
            invariant
                all == costs@,
                1 <= r <= rest.len(),
                0 <= best < r,
                forall|t: int| 0 <= t < rest.len() ==> (#[trigger] rest@[t]) < all.len(),
                forall|t: int, u: int| 0 <= t < u < rest.len() ==> rest@[t] < rest@[u],
                forall|t: int|
                    0 <= t < r && t != best ==> comes_before(
                        all,
                        rest@[best as int] as int,
                        (#[trigger] rest@[t]) as int,
                    ),
            decreases rest.len() - r,
        {
            if costs[rest[r]] < costs[rest[best]] {
                best = r;
            }
            r += 1;
        }
        let ghost before = picks@;
        let ghost waiting = rest@;
        let chosen = rest.remove(best);
        picks.push(chosen);
        proof {
            let now = picks@;
            assert(now == before.push(chosen));
            assert(waiting.contains(chosen));
            assert(!before.contains(chosen));
            assert forall|k: int, l: int| 0 <= k < l < now.len() implies comes_before(
                all,
                (#[trigger] now[k]) as int,
                (#[trigger] now[l]) as int,
            ) by {
                if l == now.len() - 1 {
                    assert(now[k] == before[k]);
                }
            }
            assert forall|p: usize| p < all.len() implies (#[trigger] now.contains(p)
                <==> !rest@.contains(
                p,
            )) by {
                if now.contains(p) {
                    let k = choose|k: int| 0 <= k < now.len() && now[k] == p;
                    if k < before.len() {
                        assert(before.contains(p));
                        assert(!waiting.contains(p));
                        if rest@.contains(p) {
                            let t = choose|t: int| 0 <= t < rest@.len() && rest@[t] == p;
                            let u = if t < best {
                                t
                            } else {
                                t + 1
                            };
                            assert(waiting[u] == p);
                        }
                    } else {
                        if rest@.contains(p) {
                            let t = choose|t: int| 0 <= t < rest@.len() && rest@[t] == p;
                            let u = if t < best {
                                t
                            } else {
                                t + 1
                            };
                            assert(waiting[u] == p && waiting[best as int] == p);
                        }
                    }
                } else {
                    assert(!before.contains(p)) by {
                        if before.contains(p) {
                            let k = choose|k: int| 0 <= k < before.len() && before[k] == p;
                            assert(now[k] == p);
                        }
                    }
                    assert(waiting.contains(p));
                    let u = choose|u: int| 0 <= u < waiting.len() && waiting[u] == p;
                    assert(now[now.len() - 1] == chosen);
                    assert(u != best);
                    let t = if u < best {
                        u
                    } else {
                        u - 1
                    };
                    assert(rest@[t] == p);
                }
            }
            assert forall|k: int, p: usize|
                0 <= k < now.len() && p < all.len() && !(#[trigger] now.contains(
                    p,
                )) implies comes_before(all, (#[trigger] now[k]) as int, p as int) by {
                assert(!before.contains(p)) by {
                    if before.contains(p) {
                        let j = choose|j: int| 0 <= j < before.len() && before[j] == p;
                        assert(now[j] == p);
                    }
                }
                if k < before.len() {
                    assert(now[k] == before[k]);
                } else {
                    assert(waiting.contains(p));
                    let u = choose|u: int| 0 <= u < waiting.len() && waiting[u] == p;
                    assert(now[now.len() - 1] == chosen);
                    assert(u != best);
                }
            }
        }
    }
    proof {
        assert(is_ranking(costs@, count as nat, picks@));
        lemma_ranking_unique(costs@, count as nat, picks@, ranking(costs@, count as nat));
    }
    picks
}

} // verus!
