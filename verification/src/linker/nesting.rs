//! Nesting. The enclosing scope of an entity is derived from span containment by a
//! stack-based sweep over the arranged candidates; no tree back-reference is kept.

use vstd::prelude::*;
use crate::entity::{CandidateEntity, CandidateModel, candidate_models};
use crate::linker::order::{arranged, arrangement, arranges, lemma_arrangement};

verus! {

/// The nearest entity at or before position `j` that opens a scope and whose span
/// covers the span of entity `i`.
pub open spec fn enclosing(e: Seq<CandidateModel>, i: int, j: int) -> Option<usize>
    decreases j + 1,
{
    if j < 0 {
        None
    } else if e[j].kind.is_scope() && e[j].span.contains(e[i].span) {
        Some(j as usize)
    } else {
        enclosing(e, i, j - 1)
    }
}

/// The scope directly around entity `i`: the nearest earlier entity that opens a
/// scope and covers it.
pub open spec fn parent_of(e: Seq<CandidateModel>, i: int) -> Option<usize> {
    enclosing(e, i, i - 1)
}

/// Number of scopes around entity `i`.
pub open spec fn depth_of(e: Seq<CandidateModel>, i: int) -> nat
    decreases i,
{
    match parent_of(e, i) {
        Some(p) => if 0 <= (p as int) < i {
            depth_of(e, p as int) + 1
        } else {
            0
        },
        None => 0,
    }
}

/// Names of the scopes around entity `i`, outermost first.
pub open spec fn path_of(e: Seq<CandidateModel>, i: int) -> Seq<Seq<u8>>
    decreases i,
{
    match parent_of(e, i) {
        Some(p) => if 0 <= (p as int) < i {
            path_of(e, p as int).push(e[p as int].name)
        } else {
            Seq::empty()
        },
        None => Seq::empty(),
    }
}

/// Entities as the sweep wants them: spans not empty and strictly ascending in sweep
/// order.
pub open spec fn swept(e: Seq<CandidateModel>) -> bool {
    &&& e.len() <= usize::MAX
    &&& forall|i: int| 0 <= i < e.len() ==> (#[trigger] e[i]).span.wf()
    &&& forall|a: int, b: int|
        0 <= a < b < e.len() ==> (#[trigger] e[a]).span.precedes((#[trigger] e[b]).span)
}

/// Every candidate has a span that is not empty.
pub open spec fn well_formed(c: Seq<CandidateModel>) -> bool {
    &&& c.len() <= usize::MAX
    &&& forall|k: int| 0 <= k < c.len() ==> (#[trigger] c[k]).span.wf()
}

pub proof fn lemma_arranged_swept(c: Seq<CandidateModel>)
    requires
        well_formed(c),
    ensures
        swept(arranged(c)),
        arranged(c).len() == arrangement(c, c.len()).len(),
        arranged(c).len() <= c.len(),
{
    let order = arrangement(c, c.len());
    let e = arranged(c);
    lemma_arrangement(c, c.len());
    assert forall|i: int| 0 <= i < e.len() implies (#[trigger] e[i]).span.wf() by {
        assert(order[i] < c.len());
    }
    assert forall|a: int, b: int| 0 <= a < b < e.len() implies (#[trigger] e[a]).span.precedes(
        (#[trigger] e[b]).span,
    ) by {
        assert(c[order[a] as int].span.precedes(c[order[b] as int].span));
    }
    lemma_ascending_short(order, c, c.len());
}

/// An arrangement holds no index twice, so it is no longer than the list it arranges.
proof fn lemma_ascending_short(order: Seq<usize>, c: Seq<CandidateModel>, n: nat)
    requires
        arranges(order, c, n),
    ensures
        order.len() <= n,
{
    let s = order.to_set();
    let all = Set::new(|x: usize| (x as int) < n);
    assert forall|a: int, b: int| 0 <= a < order.len() && 0 <= b < order.len() && a != b implies order[a]
        != order[b] by {
        if a < b {
            assert(c[order[a] as int].span.precedes(c[order[b] as int].span));
        } else {
            assert(c[order[b] as int].span.precedes(c[order[a] as int].span));
        }
    }
    assert(order.no_duplicates());
    order.unique_seq_to_set();
    lemma_below_finite(n);
    assert(s.subset_of(all)) by {
        assert forall|x: usize| s.contains(x) implies all.contains(x) by {
            let a = choose|a: int| 0 <= a < order.len() && order[a] == x;
            assert(order[a] < n);
        }
    }
    vstd::set_lib::lemma_len_subset(s, all);
}

/// There are `n` machine integers below `n`.
proof fn lemma_below_finite(n: nat)
    ensures
        Set::new(|x: usize| (x as int) < n).finite(),
        Set::new(|x: usize| (x as int) < n).len() <= n,
    decreases n,
{
    let all = Set::new(|x: usize| (x as int) < n);
    if n == 0 {
        assert(all =~= Set::empty());
    } else {
        let less = Set::new(|x: usize| (x as int) < n - 1);
        lemma_below_finite((n - 1) as nat);
        if n - 1 <= usize::MAX {
            assert(all =~= less.insert((n - 1) as usize));
        } else {
            assert(all =~= less);
        }
    }
}

/// What `enclosing` returns, given where the nearest covering scope stands.
pub proof fn lemma_enclosing(e: Seq<CandidateModel>, i: int, j: int, p: int)
    requires
        -1 <= p <= j,
        j <= usize::MAX,
        forall|t: int| p < t <= j ==> !((#[trigger] e[t]).kind.is_scope() && e[t].span.contains(e[i].span)),
        p >= 0 ==> e[p].kind.is_scope() && e[p].span.contains(e[i].span),
    ensures
        enclosing(e, i, j) == (if p >= 0 {
            Some(p as usize)
        } else {
            None
        }),
    decreases j - p,
{
    if j > p {
        assert(!(e[j].kind.is_scope() && e[j].span.contains(e[i].span)));
        lemma_enclosing(e, i, j - 1, p);
    }
}

/// The scope that `enclosing` finds stands at or before `j`, opens a scope and
/// covers entity `i`; nothing between it and `j` does.
pub proof fn lemma_enclosing_found(e: Seq<CandidateModel>, i: int, j: int)
    requires
        j <= usize::MAX,
    ensures
        match enclosing(e, i, j) {
            Some(p) => {
                &&& 0 <= (p as int) <= j
                &&& e[p as int].kind.is_scope()
                &&& e[p as int].span.contains(e[i].span)
                &&& forall|t: int|
                    (p as int) < t <= j ==> !((#[trigger] e[t]).kind.is_scope() && e[t].span.contains(
                        e[i].span,
                    ))
            },
            None => forall|t: int|
                0 <= t <= j ==> !((#[trigger] e[t]).kind.is_scope() && e[t].span.contains(e[i].span)),
        },
    decreases j + 1,
{
    if j >= 0 && !(e[j].kind.is_scope() && e[j].span.contains(e[i].span)) {
        lemma_enclosing_found(e, i, j - 1);
    }
}

/// An entity has fewer scopes around it than entities before it.
pub proof fn lemma_depth_bound(e: Seq<CandidateModel>, i: int)
    requires
        0 <= i,
    ensures
        depth_of(e, i) <= i,
        path_of(e, i).len() == depth_of(e, i),
    decreases i,
{
    match parent_of(e, i) {
        Some(p) => {
            if 0 <= (p as int) < i {
                lemma_depth_bound(e, p as int);
            }
        },
        None => {},
    }
}

/// The state of the sweep before entity `i`: the stack holds scopes that stand
/// before `i`, in ascending order, and every earlier scope that is not on it ends
/// before entity `i` and all later ones begin.
pub open spec fn stack_holds(stack: Seq<usize>, e: Seq<CandidateModel>, i: int) -> bool {
    &&& forall|s: int| 0 <= s < stack.len() ==> (#[trigger] stack[s]) < i && e[stack[s] as int].kind.is_scope()
    &&& forall|s: int, t: int| 0 <= s < t < stack.len() ==> (#[trigger] stack[s]) < (#[trigger] stack[t])
    &&& forall|j: int, m: int|
        0 <= j < i <= m < e.len() && (#[trigger] e[j]).kind.is_scope() && !stack.contains(j as usize)
            ==> e[j].span.end <= (#[trigger] e[m]).span.start
}

/// Finds the scope directly around each arranged candidate.
pub fn nest(candidates: &Vec<CandidateEntity>, order: &Vec<usize>) -> (parents: Vec<Option<usize>>)
    requires
        well_formed(candidate_models(candidates@)),
        order@ == arrangement(candidate_models(candidates@), candidates.len() as nat),
    ensures
        parents.len() == order.len(),
        forall|i: int|
            0 <= i < parents.len() ==> #[trigger] parents[i] == parent_of(
                arranged(candidate_models(candidates@)),
                i,
            ),
{
    let ghost c = candidate_models(candidates@);
    let ghost e = arranged(c);
    proof {
        lemma_arrangement(c, c.len());
        lemma_arranged_swept(c);
    }
    let n = order.len();
    let mut parents: Vec<Option<usize>> = Vec::new();
    let mut stack: Vec<usize> = Vec::new();
    let mut i: usize = 0;
    while i < n
        invariant
            i <= n,
            n == order.len(),
            n == e.len(),
            c == candidate_models(candidates@),
            e == arranged(c),
            swept(e),
            forall|a: int| 0 <= a < n ==> (#[trigger] order[a]) < candidates.len(),
            forall|a: int| 0 <= a < n ==> (#[trigger] e[a]) == candidates[order[a] as int]@,
            parents.len() == i,
            forall|t: int| 0 <= t < i ==> #[trigger] parents[t] == parent_of(e, t),
            stack_holds(stack@, e, i as int),
        decreases n - i,
    {
        let span = candidates[order[i]].span;
        assert(span == e[i as int].span);
        // Scopes that end before this entity begins are closed for good.
        while stack.len() > 0 && candidates[order[stack[stack.len() - 1]]].span.end <= span.start
            invariant
                i < n,
                n == order.len(),
                n == e.len(),
                swept(e),
                span == e[i as int].span,
                forall|a: int| 0 <= a < n ==> (#[trigger] order[a]) < candidates.len(),
                forall|a: int| 0 <= a < n ==> (#[trigger] e[a]) == candidates[order[a] as int]@,
                stack_holds(stack@, e, i as int),
            decreases stack.len(),
        {
            let ghost before = stack@;
            stack.pop();
            proof {
                let top = before.last();
                assert(before[before.len() - 1] == top);
                assert(e[top as int] == candidates[order[top as int] as int]@);
                assert forall|j: int, m: int|
                    0 <= j < i <= m < e.len() && (#[trigger] e[j]).kind.is_scope() && !stack@.contains(
                        j as usize,
                    ) implies e[j].span.end <= (#[trigger] e[m]).span.start by {
                    if before.contains(j as usize) {
                        let t = choose|t: int| 0 <= t < before.len() && before[t] == j as usize;
                        if t < before.len() - 1 {
                            assert(stack@[t] == j as usize);
                        }
                        assert(j == top);
                        if m > i {
                            assert(e[i as int].span.precedes(e[m].span));
                        }
                    }
                }
                assert forall|s: int| 0 <= s < stack@.len() implies (#[trigger] stack@[s]) < i
                    && e[stack@[s] as int].kind.is_scope() by {
                    assert(stack@[s] == before[s]);
                }
                assert forall|s: int, t: int| 0 <= s < t < stack@.len() implies (#[trigger] stack@[s])
                    < (#[trigger] stack@[t]) by {
                    assert(stack@[s] == before[s] && stack@[t] == before[t]);
                }
            }
        }
        // The nearest open scope that covers this entity is its parent.
        let mut s: usize = stack.len();
        let mut found = false;
        while s > 0 && !found
            invariant
                i < n,
                n == order.len(),
                n == e.len(),
                span == e[i as int].span,
                s <= stack.len(),
                forall|a: int| 0 <= a < n ==> (#[trigger] order[a]) < candidates.len(),
                forall|a: int| 0 <= a < n ==> (#[trigger] e[a]) == candidates[order[a] as int]@,
                stack_holds(stack@, e, i as int),
                forall|t: int| s <= t < stack.len() ==> !e[(#[trigger] stack[t]) as int].span.contains(span),
                found ==> s > 0 && e[stack[s - 1] as int].span.contains(span),
            decreases s + (if found { 0int } else { 1int }),
        {
            let j = stack[s - 1];
            assert(e[j as int] == candidates[order[j as int] as int]@);
            if candidates[order[j]].span.encloses(&span) {
                found = true;
            } else {
                s = s - 1;
            }
        }
        let parent = if found {
            Some(stack[s - 1])
        } else {
            None
        };
        proof {
            let p: int = if found {
                stack[s - 1] as int
            } else {
                -1
            };
            assert forall|t: int| p < t <= i - 1 implies !((#[trigger] e[t]).kind.is_scope()
                && e[t].span.contains(span)) by {
                if e[t].kind.is_scope() {
                    if stack@.contains(t as usize) {
                        let at = choose|at: int| 0 <= at < stack.len() && stack[at] == t as usize;
                        if at < s {
                            if found {
                                if at < s - 1 {
                                    assert(stack[at] < stack[s - 1]);
                                }
                            }
                            assert(false);
                        }
                    } else {
                        assert(e[t].span.end <= e[i as int].span.start);
                        assert(e[i as int].span.wf());
                    }
                }
            }
            lemma_enclosing(e, i as int, i - 1, p);
        }
        parents.push(parent);
        let ghost before = stack@;
        if candidates[order[i]].kind.opens_scope() {
            stack.push(i);
            proof {
                assert(stack@[stack@.len() - 1] == i);
                assert forall|j: int, m: int|
                    0 <= j < i + 1 <= m < e.len() && (#[trigger] e[j]).kind.is_scope()
                        && !stack@.contains(j as usize) implies e[j].span.end <= (#[trigger] e[m]).span.start by {
                    if j == i {
                        assert(stack@.contains(i));
                    } else if before.contains(j as usize) {
                        let t = choose|t: int| 0 <= t < before.len() && before[t] == j as usize;
                        assert(stack@[t] == j as usize);
                    }
                }
                assert forall|s: int| 0 <= s < stack@.len() implies (#[trigger] stack@[s]) < i + 1
                    && e[stack@[s] as int].kind.is_scope() by {
                    if s < before.len() {
                        assert(stack@[s] == before[s]);
                    }
                }
                assert forall|s: int, t: int| 0 <= s < t < stack@.len() implies (#[trigger] stack@[s])
                    < (#[trigger] stack@[t]) by {
                    assert(stack@[s] == before[s]);
                    if t < before.len() {
                        assert(stack@[t] == before[t]);
                    }
                }
            }
        }
        i = i + 1;
    }
    parents
}

} // verus!
