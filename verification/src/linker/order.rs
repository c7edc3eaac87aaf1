//! Sweep order. Candidates are arranged by span start ascending and, at equal
//! starts, by span end descending. Of several candidates with one span the earliest
//! stays and the others are dropped.

use vstd::prelude::*;
use crate::diagnostics::Diagnostic;
use crate::entity::{CandidateEntity, CandidateModel, candidate_models};
use crate::span::{lemma_precedes_total, lemma_precedes_transitive};

verus! {

/// `order` with candidate `k` put in its place, or `order` itself when a candidate
/// of `order` already has the span of `k`.
pub open spec fn place(order: Seq<usize>, c: Seq<CandidateModel>, k: usize) -> Seq<usize>
    decreases order.len(),
{
    if order.len() == 0 {
        seq![k]
    } else {
        let last = order.last();
        if c[last as int].span == c[k as int].span {
            order
        } else if c[last as int].span.precedes(c[k as int].span) {
            order.push(k)
        } else {
            place(order.drop_last(), c, k).push(last)
        }
    }
}

/// The indices of the candidates that stay among the first `n`, in sweep order.
pub open spec fn arrangement(c: Seq<CandidateModel>, n: nat) -> Seq<usize>
    decreases n,
{
    if n == 0 {
        Seq::empty()
    } else {
        place(arrangement(c, (n - 1) as nat), c, (n - 1) as usize)
    }
}

/// The candidates that stay, in sweep order.
pub open spec fn arranged(c: Seq<CandidateModel>) -> Seq<CandidateModel> {
    let order = arrangement(c, c.len());
    Seq::new(order.len(), |i: int| c[order[i] as int])
}

/// Candidate `k` claims a span that an earlier candidate already claimed.
pub open spec fn is_duplicate(c: Seq<CandidateModel>, k: int) -> bool {
    exists|j: int| 0 <= j < k && (#[trigger] c[j]).span == c[k].span
}

/// One diagnostic for each duplicate among the first `n` candidates, in their order.
pub open spec fn duplicates(c: Seq<CandidateModel>, n: nat) -> Seq<Diagnostic>
    decreases n,
{
    if n == 0 {
        Seq::empty()
    } else {
        let before = duplicates(c, (n - 1) as nat);
        if is_duplicate(c, n - 1) {
            before.push(Diagnostic::DuplicateSpanConflict { span: c[n - 1].span })
        } else {
            before
        }
    }
}

/// The spans of `order` strictly ascend in sweep order.
pub open spec fn ascending(order: Seq<usize>, c: Seq<CandidateModel>) -> bool {
    forall|a: int, b: int|
        0 <= a < b < order.len() ==> c[(#[trigger] order[a]) as int].span.precedes(
            c[(#[trigger] order[b]) as int].span,
        )
}

/// `order` arranges the first `n` candidates: it holds indices below `n`, its spans
/// strictly ascend, and every one of the first `n` candidates has its span in it,
/// claimed by a candidate that is not later than itself.
pub open spec fn arranges(order: Seq<usize>, c: Seq<CandidateModel>, n: nat) -> bool {
    &&& forall|a: int| 0 <= a < order.len() ==> (#[trigger] order[a]) < n
    &&& ascending(order, c)
    &&& forall|j: int| 0 <= j < n ==> #[trigger] claimed(order, c, j)
}

/// The span of candidate `j` stands in `order`, claimed by a candidate that is not
/// later than `j`.
pub open spec fn claimed(order: Seq<usize>, c: Seq<CandidateModel>, j: int) -> bool {
    exists|a: int|
        0 <= a < order.len() && (#[trigger] order[a]) <= j && c[order[a] as int].span == c[j].span
}

/// No candidate of `order` has the span of `k`.
pub open spec fn unclaimed(order: Seq<usize>, c: Seq<CandidateModel>, k: usize) -> bool {
    forall|a: int| 0 <= a < order.len() ==> c[(#[trigger] order[a]) as int].span != c[k as int].span
}

proof fn lemma_place(order: Seq<usize>, c: Seq<CandidateModel>, k: usize)
    requires
        ascending(order, c),
    ensures
        ascending(place(order, c, k), c),
        !unclaimed(order, c, k) ==> place(order, c, k) == order,
        unclaimed(order, c, k) ==> place(order, c, k).contains(k),
        forall|x: usize| order.contains(x) ==> #[trigger] place(order, c, k).contains(x),
        forall|x: usize| #[trigger] place(order, c, k).contains(x) ==> order.contains(x) || x == k,
    decreases order.len(),
{
    let r = place(order, c, k);
    if order.len() == 0 {
        assert(r[0] == k);
    } else {
        let last = order.last();
        let init = order.drop_last();
        if c[last as int].span == c[k as int].span {
            assert(order[order.len() - 1] == last);
        } else if c[last as int].span.precedes(c[k as int].span) {
            assert forall|a: int| 0 <= a < order.len() implies c[(#[trigger] order[a]) as int].span
                != c[k as int].span by {
                if a < order.len() - 1 {
                    assert(c[order[a] as int].span.precedes(c[order[order.len() - 1] as int].span));
                    lemma_precedes_transitive(
                        c[order[a] as int].span,
                        c[last as int].span,
                        c[k as int].span,
                    );
                }
                lemma_precedes_total(c[order[a] as int].span, c[k as int].span);
            }
            assert forall|a: int, b: int| 0 <= a < b < r.len() implies c[(#[trigger] r[a]) as int].span.precedes(
                c[(#[trigger] r[b]) as int].span,
            ) by {
                if b == r.len() - 1 {
                    if a < order.len() - 1 {
                        assert(c[order[a] as int].span.precedes(
                            c[order[order.len() - 1] as int].span,
                        ));
                        lemma_precedes_transitive(
                            c[order[a] as int].span,
                            c[last as int].span,
                            c[k as int].span,
                        );
                    }
                } else {
                    assert(r[a] == order[a] && r[b] == order[b]);
                }
            }
            assert(r[r.len() - 1] == k);
            assert forall|x: usize| order.contains(x) implies #[trigger] r.contains(x) by {
                let a = choose|a: int| 0 <= a < order.len() && order[a] == x;
                assert(r[a] == x);
            }
            assert forall|x: usize| #[trigger] r.contains(x) implies order.contains(x) || x == k by {
                let a = choose|a: int| 0 <= a < r.len() && r[a] == x;
                if a < order.len() {
                    assert(order[a] == x);
                }
            }
        } else {
            lemma_precedes_total(c[last as int].span, c[k as int].span);
            assert forall|a: int, b: int| 0 <= a < b < init.len() implies c[(#[trigger] init[a]) as int].span.precedes(
                c[(#[trigger] init[b]) as int].span,
            ) by {
                assert(init[a] == order[a] && init[b] == order[b]);
            }
            lemma_place(init, c, k);
            let inner = place(init, c, k);
            assert(r == inner.push(last));
            assert forall|a: int, b: int| 0 <= a < b < r.len() implies c[(#[trigger] r[a]) as int].span.precedes(
                c[(#[trigger] r[b]) as int].span,
            ) by {
                if b == r.len() - 1 {
                    assert(r[a] == inner[a]);
                    assert(inner.contains(inner[a]));
                    if inner[a] != k {
                        assert(init.contains(inner[a]));
                        let t = choose|t: int| 0 <= t < init.len() && init[t] == inner[a];
                        assert(order[t] == inner[a]);
                        assert(c[order[t] as int].span.precedes(
                            c[order[order.len() - 1] as int].span,
                        ));
                    }
                } else {
                    assert(r[a] == inner[a] && r[b] == inner[b]);
                }
            }
            if !unclaimed(order, c, k) {
                let a = choose|a: int| 0 <= a < order.len() && c[(#[trigger] order[a]) as int].span
                    == c[k as int].span;
                assert(a < order.len() - 1);
                assert(init[a] == order[a]);
                assert(!unclaimed(init, c, k));
                assert(inner == init);
                assert(r =~= order);
            } else {
                assert forall|a: int| 0 <= a < init.len() implies c[(#[trigger] init[a]) as int].span
                    != c[k as int].span by {
                    assert(init[a] == order[a]);
                }
                assert(unclaimed(init, c, k));
                let a = choose|a: int| 0 <= a < inner.len() && inner[a] == k;
                assert(r[a] == k);
            }
            assert forall|x: usize| order.contains(x) implies #[trigger] r.contains(x) by {
                let a = choose|a: int| 0 <= a < order.len() && order[a] == x;
                if a < order.len() - 1 {
                    assert(init[a] == x);
                    assert(init.contains(x));
                    assert(inner.contains(x));
                    let t = choose|t: int| 0 <= t < inner.len() && inner[t] == x;
                    assert(r[t] == x);
                } else {
                    assert(r[r.len() - 1] == x);
                }
            }
            assert forall|x: usize| #[trigger] r.contains(x) implies order.contains(x) || x == k by {
                let a = choose|a: int| 0 <= a < r.len() && r[a] == x;
                if a < inner.len() {
                    assert(inner[a] == x);
                    assert(inner.contains(x));
                    if x != k {
                        assert(init.contains(x));
                        let t = choose|t: int| 0 <= t < init.len() && init[t] == x;
                        assert(order[t] == x);
                    }
                } else {
                    assert(order[order.len() - 1] == x);
                }
            }
        }
    }
}

/// What the arrangement of the first `n` candidates is like.
pub proof fn lemma_arrangement(c: Seq<CandidateModel>, n: nat)
    requires
        n <= c.len(),
        n <= usize::MAX,
    ensures
        arranges(arrangement(c, n), c, n),
    decreases n,
{
    if n > 0 {
        let before = arrangement(c, (n - 1) as nat);
        let k = (n - 1) as usize;
        let now = arrangement(c, n);
        lemma_arrangement(c, (n - 1) as nat);
        lemma_place(before, c, k);
        assert forall|a: int| 0 <= a < now.len() implies (#[trigger] now[a]) < n by {
            assert(now.contains(now[a]));
            if now[a] != k {
                let t = choose|t: int| 0 <= t < before.len() && before[t] == now[a];
            }
        }
        assert forall|j: int| 0 <= j < n implies #[trigger] claimed(now, c, j) by {
            if j < n - 1 {
                assert(claimed(before, c, j));
                let t = choose|t: int|
                    0 <= t < before.len() && (#[trigger] before[t]) <= j && c[before[t] as int].span
                        == c[j].span;
                assert(before.contains(before[t]));
                assert(now.contains(before[t]));
                let a = choose|a: int| 0 <= a < now.len() && now[a] == before[t];
                assert(now[a] <= j);
            } else if unclaimed(before, c, k) {
                let a = choose|a: int| 0 <= a < now.len() && now[a] == k;
                assert(now[a] <= j);
            } else {
                let t = choose|t: int|
                    0 <= t < before.len() && c[(#[trigger] before[t]) as int].span == c[k as int].span;
                assert(now == before);
                assert(now[t] <= j);
            }
        }
    }
}

/// A candidate is a duplicate exactly when the arrangement of those before it holds
/// its span.
pub proof fn lemma_duplicate_is_claimed(c: Seq<CandidateModel>, k: usize)
    requires
        k < c.len(),
    ensures
        is_duplicate(c, k as int) <==> !unclaimed(arrangement(c, k as nat), c, k),
{
    let order = arrangement(c, k as nat);
    lemma_arrangement(c, k as nat);
    if is_duplicate(c, k as int) {
        let j = choose|j: int| 0 <= j < k && (#[trigger] c[j]).span == c[k as int].span;
        assert(claimed(order, c, j));
        let a = choose|a: int|
            0 <= a < order.len() && (#[trigger] order[a]) <= j && c[order[a] as int].span
                == c[j].span;
        assert(c[order[a] as int].span == c[k as int].span);
    }
    if !unclaimed(order, c, k) {
        let a = choose|a: int| 0 <= a < order.len() && c[(#[trigger] order[a]) as int].span
            == c[k as int].span;
        assert(c[order[a] as int].span == c[k as int].span);
    }
}

/// Arranges the candidates for the sweep and reports the duplicates it dropped.
pub fn arrange(candidates: &Vec<CandidateEntity>) -> (r: (Vec<usize>, Vec<Diagnostic>))
    ensures
        r.0@ == arrangement(candidate_models(candidates@), candidates.len() as nat),
        r.1@ == duplicates(candidate_models(candidates@), candidates.len() as nat),
{
    let ghost c = candidate_models(candidates@);
    let mut order: Vec<usize> = Vec::new();
    let mut dropped: Vec<Diagnostic> = Vec::new();
    let mut k: usize = 0;
    while k < candidates.len()
        invariant
            k <= candidates.len(),
            c == candidate_models(candidates@),
            order@ == arrangement(c, k as nat),
            dropped@ == duplicates(c, k as nat),
        decreases candidates.len() - k,
    {
        proof {
            lemma_arrangement(c, k as nat);
            lemma_duplicate_is_claimed(c, k);
        }
        let span = candidates[k].span;
        let ghost before = order@;
        let mut p: usize = order.len();
        let mut claimed = false;
        let mut settled = false;
        proof {
            assert(before.take(p as int) =~= before);
            assert(place(before, c, k) + before.skip(p as int) =~= place(before, c, k));
        }
        while p > 0 && !settled
            invariant
                p <= order.len(),
                order@ == before,
                k < candidates.len(),
                c == candidate_models(candidates@),
                span == c[k as int].span,
                arranges(before, c, k as nat),
                place(before, c, k) == place(before.take(p as int), c, k) + before.skip(p as int),
                forall|a: int| p <= a < before.len() ==> c[(#[trigger] before[a]) as int].span != span,
                settled && !claimed ==> p > 0 && c[before[p - 1] as int].span.precedes(span),
                settled && claimed ==> p > 0 && c[before[p - 1] as int].span == span,
                claimed ==> settled,
            decreases p + (if settled { 0int } else { 1int }),
        {
            let other = candidates[order[p - 1]].span;
            proof {
                assert(before.take(p as int).last() == before[p - 1]);
            }
            if other.same(&span) {
                claimed = true;
                settled = true;
            } else if other.sorts_before(&span) {
                settled = true;
            } else {
                proof {
                    let head = before.take(p as int);
                    assert(head.drop_last() =~= before.take(p - 1));
                    assert(place(head, c, k) == place(before.take(p - 1), c, k).push(before[p - 1]));
                    assert(place(before.take(p - 1), c, k).push(before[p - 1]) + before.skip(p as int)
                        =~= place(before.take(p - 1), c, k) + before.skip(p - 1));
                }
                p = p - 1;
            }
        }
        if claimed {
            proof {
                let head = before.take(p as int);
                assert(place(head, c, k) == head);
                assert(head + before.skip(p as int) =~= before);
                assert(!unclaimed(before, c, k));
            }
            dropped.push(Diagnostic::DuplicateSpanConflict { span });
        } else {
            proof {
                let head = before.take(p as int);
                if p > 0 {
                    assert(place(head, c, k) == head.push(k));
                } else {
                    assert(place(head, c, k) =~= seq![k]);
                }
                assert(place(head, c, k) + before.skip(p as int) =~= before.insert(p as int, k));
                assert forall|a: int| 0 <= a < before.len() implies c[(#[trigger] before[a]) as int].span
                    != span by {
                    if a < p {
                        if a < p - 1 {
                            assert(c[before[a] as int].span.precedes(c[before[p - 1] as int].span));
                            lemma_precedes_transitive(
                                c[before[a] as int].span,
                                c[before[p - 1] as int].span,
                                span,
                            );
                        }
                        lemma_precedes_total(c[before[a] as int].span, span);
                    }
                }
                assert(unclaimed(before, c, k));
            }
            order.insert(p, k);
        }
        k = k + 1;
    }
    (order, dropped)
}

} // verus!
