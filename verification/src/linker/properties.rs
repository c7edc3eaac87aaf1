//! What holds of every linking: the `Contains` edges form a forest, top-level
//! declarations are neither lost nor duplicated, an implementation whose type and
//! trait are declared in its scope has exactly one edge to each, and identifiers do
//! not depend on where spans stand.

use vstd::prelude::*;
use crate::entity::{CandidateModel, EntityKind, RelationshipEdge, RelationshipKind};
use crate::identity::identified;
use crate::linker::edges::{
    contains_edge, declared, edges_at, edges_upto, entity_at, interface_edge, interface_of,
    lacks_interface, lacks_target, lemma_declared, lemma_edges_at, method_edge, target_edge,
    target_of,
};
use crate::linker::nesting::{
    depth_of, enclosing, lemma_arranged_swept, lemma_enclosing_found, parent_of,
    path_of, well_formed,
};
use crate::linker::order::{
    arranged, arrangement, arranges, claimed, lemma_arrangement, lemma_duplicate_is_claimed, place,
    unclaimed,
};
use crate::span::{lemma_container_precedes, lemma_precedes_total};

verus! {

/// `edges` holds a `Contains` edge from entity `a` to entity `b`.
pub open spec fn contains_step(edges: Seq<RelationshipEdge>, a: usize, b: usize) -> bool {
    exists|k: int|
        0 <= k < edges.len() && #[trigger] edges[k] == (RelationshipEdge {
            kind: RelationshipKind::Contains,
            from: a,
            to: b,
        })
}

/// `walk` follows `Contains` edges from its first entity to its last, over at least
/// one edge.
pub open spec fn contains_walk(edges: Seq<RelationshipEdge>, walk: Seq<usize>) -> bool {
    &&& walk.len() >= 2
    &&& forall|s: int| 0 <= s < walk.len() - 1 ==> contains_step(edges, #[trigger] walk[s], walk[s + 1])
}

/// A `Contains` edge goes from an entity to a later one, and the entity it leaves is
/// the scope directly around the one it reaches.
pub proof fn lemma_contains_ascends(e: Seq<CandidateModel>, n: nat)
    requires
        n <= e.len(),
        e.len() <= usize::MAX,
    ensures
        forall|k: int|
            0 <= k < edges_upto(e, n).len() && (#[trigger] edges_upto(e, n)[k]).kind is Contains ==> {
                &&& edges_upto(e, n)[k].from < edges_upto(e, n)[k].to
                &&& edges_upto(e, n)[k].to < n
                &&& Some(edges_upto(e, n)[k].from) == parent_of(e, edges_upto(e, n)[k].to as int)
            },
    decreases n,
{
    if n > 0 {
        lemma_contains_ascends(e, (n - 1) as nat);
        lemma_edges_at(e, n - 1);
        let before = edges_upto(e, (n - 1) as nat);
        let now = edges_upto(e, n);
        assert forall|k: int| 0 <= k < now.len() && (#[trigger] now[k]).kind is Contains implies now[k].from
            < now[k].to && now[k].to < n && Some(now[k].from) == parent_of(e, now[k].to as int) by {
            if k < before.len() {
                assert(now[k] == before[k]);
            } else {
                assert(now[k] == edges_at(e, n - 1)[k - before.len()]);
            }
        }
    }
}

proof fn lemma_walk_ascends(edges: Seq<RelationshipEdge>, walk: Seq<usize>, s: int)
    requires
        contains_walk(edges, walk),
        forall|k: int|
            0 <= k < edges.len() && (#[trigger] edges[k]).kind is Contains ==> edges[k].from < edges[k].to,
        1 <= s < walk.len(),
    ensures
        walk[0] < walk[s],
    decreases s,
{
    assert(contains_step(edges, walk[s - 1], walk[s - 1 + 1]));
    if s > 1 {
        lemma_walk_ascends(edges, walk, s - 1);
    }
}

/// The `Contains` edges have no cycle: whoever follows them from an entity, over
/// one edge or more, ends at a later entity, never at the one it began with.
pub proof fn lemma_contains_has_no_cycle(e: Seq<CandidateModel>, walk: Seq<usize>)
    requires
        e.len() <= usize::MAX,
        contains_walk(edges_upto(e, e.len()), walk),
    ensures
        walk.first() < walk.last(),
        walk.first() != walk.last(),
{
    lemma_contains_ascends(e, e.len());
    lemma_walk_ascends(edges_upto(e, e.len()), walk, walk.len() - 1);
}

/// The `Contains` edges form a forest: an entity is contained by one entity at most.
pub proof fn lemma_contains_has_one_parent(e: Seq<CandidateModel>, a: usize, b: usize, child: usize)
    requires
        e.len() <= usize::MAX,
        contains_step(edges_upto(e, e.len()), a, child),
        contains_step(edges_upto(e, e.len()), b, child),
    ensures
        a == b,
        parent_of(e, child as int) == Some(a),
{
    lemma_contains_ascends(e, e.len());
}

/// Number of edges that satisfy `f`.
pub open spec fn count_where(edges: Seq<RelationshipEdge>, f: spec_fn(RelationshipEdge) -> bool) -> nat
    decreases edges.len(),
{
    if edges.len() == 0 {
        0
    } else {
        count_where(edges.drop_last(), f) + if f(edges.last()) {
            1nat
        } else {
            0nat
        }
    }
}

proof fn lemma_count_add(
    a: Seq<RelationshipEdge>,
    b: Seq<RelationshipEdge>,
    f: spec_fn(RelationshipEdge) -> bool,
)
    ensures
        count_where(a + b, f) == count_where(a, f) + count_where(b, f),
    decreases b.len(),
{
    if b.len() == 0 {
        assert(a + b =~= a);
    } else {
        assert((a + b).drop_last() =~= a + b.drop_last());
        assert((a + b).last() == b.last());
        lemma_count_add(a, b.drop_last(), f);
    }
}

proof fn lemma_count_none(edges: Seq<RelationshipEdge>, f: spec_fn(RelationshipEdge) -> bool)
    requires
        forall|k: int| 0 <= k < edges.len() ==> !f(#[trigger] edges[k]),
    ensures
        count_where(edges, f) == 0,
    decreases edges.len(),
{
    if edges.len() > 0 {
        assert(!f(edges[edges.len() - 1]));
        assert forall|k: int| 0 <= k < edges.drop_last().len() implies !f(
            #[trigger] edges.drop_last()[k],
        ) by {
            assert(edges.drop_last()[k] == edges[k]);
        }
        lemma_count_none(edges.drop_last(), f);
    }
}

proof fn lemma_count_one(edge: RelationshipEdge, f: spec_fn(RelationshipEdge) -> bool)
    ensures
        count_where(seq![edge], f) == (if f(edge) {
            1nat
        } else {
            0nat
        }),
{
    assert(seq![edge].drop_last() =~= Seq::<RelationshipEdge>::empty());
    assert(seq![edge].last() == edge);
    assert(count_where(Seq::<RelationshipEdge>::empty(), f) == 0);
}

/// Of the edges of the first `n` entities, those that satisfy `f` are the ones that
/// entity `i` brings, when `f` holds only of edges that leave entity `i` and are no
/// `Contains` edges.
proof fn lemma_count_upto(
    e: Seq<CandidateModel>,
    n: nat,
    i: int,
    f: spec_fn(RelationshipEdge) -> bool,
)
    requires
        n <= e.len(),
        e.len() <= usize::MAX,
        0 <= i < e.len(),
        forall|x: RelationshipEdge| #[trigger] f(x) ==> x.from == i && !(x.kind is Contains),
    ensures
        count_where(edges_upto(e, n), f) == (if i < n {
            count_where(edges_at(e, i), f)
        } else {
            0
        }),
    decreases n,
{
    if n > 0 {
        lemma_count_upto(e, (n - 1) as nat, i, f);
        lemma_count_add(edges_upto(e, (n - 1) as nat), edges_at(e, n - 1), f);
        if n - 1 != i {
            lemma_edges_at(e, n - 1);
            lemma_count_none(edges_at(e, n - 1), f);
        }
    }
}

/// An implementation whose type and trait are both declared in its own scope has
/// exactly one `Implements` edge to the type's entity and exactly one to the
/// trait's entity, and no other `Implements` edge leaves it. The type's entity is
/// the first type of that name declared in the scope, and likewise the trait's.
pub proof fn lemma_implementation_edges(e: Seq<CandidateModel>, i: int, t: int, s: int)
    requires
        e.len() <= usize::MAX,
        0 <= i < e.len(),
        e[i].kind is Implementation,
        0 <= t < e.len(),
        e[t].kind is Type,
        e[t].name == e[i].target,
        parent_of(e, t) == parent_of(e, i),
        0 <= s < e.len(),
        e[s].kind is Trait,
        e[i].interface == Some(e[s].name),
        parent_of(e, s) == parent_of(e, i),
    ensures
        !lacks_target(e, i),
        !lacks_interface(e, i),
        target_of(e, i) is Some,
        interface_of(e, i) is Some,
        ({
            let ty = target_of(e, i)->0;
            let tr = interface_of(e, i)->0;
            let edges = edges_upto(e, e.len());
            let to_type = RelationshipEdge { kind: RelationshipKind::Implements, from: i as usize, to: ty };
            let to_trait = RelationshipEdge { kind: RelationshipKind::Implements, from: i as usize, to: tr };
            &&& ty <= t
            &&& e[ty as int].kind is Type
            &&& e[ty as int].name == e[i].target
            &&& parent_of(e, ty as int) == parent_of(e, i)
            &&& tr <= s
            &&& e[tr as int].kind is Trait
            &&& Some(e[tr as int].name) == e[i].interface
            &&& parent_of(e, tr as int) == parent_of(e, i)
            &&& count_where(edges, |x: RelationshipEdge| x == to_type) == 1
            &&& count_where(edges, |x: RelationshipEdge| x == to_trait) == 1
            &&& count_where(edges, |x: RelationshipEdge| x.kind is Implements && x.from == i) == 2
        }),
{
    let scope = parent_of(e, i);
    lemma_declared(e, scope, EntityKind::Type, e[i].target, 0);
    lemma_declared(e, scope, EntityKind::Trait, e[s].name, 0);
    let ty = target_of(e, i)->0;
    let tr = interface_of(e, i)->0;
    let edges = edges_upto(e, e.len());
    let to_type = RelationshipEdge { kind: RelationshipKind::Implements, from: i as usize, to: ty };
    let to_trait = RelationshipEdge { kind: RelationshipKind::Implements, from: i as usize, to: tr };
    assert(ty != tr);
    let is_type = |x: RelationshipEdge| x == to_type;
    let is_trait = |x: RelationshipEdge| x == to_trait;
    let leaves = |x: RelationshipEdge| x.kind is Implements && x.from == i;
    lemma_count_upto(e, e.len(), i, is_type);
    lemma_count_upto(e, e.len(), i, is_trait);
    lemma_count_upto(e, e.len(), i, leaves);
    let head = contains_edge(e, i) + method_edge(e, i);
    lemma_edges_at(e, i);
    assert forall|k: int| 0 <= k < head.len() implies !((#[trigger] head[k]).kind is Implements) by {
        if k < contains_edge(e, i).len() {
            assert(head[k] == contains_edge(e, i)[k]);
        } else {
            assert(head[k] == method_edge(e, i)[k - contains_edge(e, i).len()]);
        }
    }
    assert(target_edge(e, i) == seq![to_type]);
    assert(interface_edge(e, i) == seq![to_trait]);
    lemma_count_none(head, is_type);
    lemma_count_none(head, is_trait);
    lemma_count_none(head, leaves);
    lemma_count_one(to_type, is_type);
    lemma_count_one(to_type, is_trait);
    lemma_count_one(to_type, leaves);
    lemma_count_one(to_trait, is_type);
    lemma_count_one(to_trait, is_trait);
    lemma_count_one(to_trait, leaves);
    lemma_count_add(head, seq![to_type], is_type);
    lemma_count_add(head, seq![to_type], is_trait);
    lemma_count_add(head, seq![to_type], leaves);
    lemma_count_add(head + seq![to_type], seq![to_trait], is_type);
    lemma_count_add(head + seq![to_type], seq![to_trait], is_trait);
    lemma_count_add(head + seq![to_type], seq![to_trait], leaves);
}

/// No two candidates claim the same span.
pub open spec fn distinct_spans(c: Seq<CandidateModel>) -> bool {
    forall|j: int, k: int| 0 <= j < k < c.len() ==> (#[trigger] c[j]).span != (#[trigger] c[k]).span
}

/// Candidate `k` stands inside the span of a candidate that opens a scope.
pub open spec fn covered(c: Seq<CandidateModel>, k: int) -> bool {
    exists|j: int|
        0 <= j < c.len() && (#[trigger] c[j]).kind.is_scope() && c[j].span.contains(c[k].span)
            && c[j].span != c[k].span
}

/// The top-level candidates: those that stand inside no scope.
pub open spec fn top_level_candidates(c: Seq<CandidateModel>) -> Set<int> {
    Set::new(|k: int| 0 <= k < c.len() && !covered(c, k))
}

/// The top-level entities: those without a scope around them.
pub open spec fn top_level_entities(e: Seq<CandidateModel>) -> Set<int> {
    Set::new(|i: int| 0 <= i < e.len() && parent_of(e, i) is None)
}

proof fn lemma_place_len(order: Seq<usize>, c: Seq<CandidateModel>, k: usize)
    requires
        forall|a: int, b: int|
            0 <= a < b < order.len() ==> c[(#[trigger] order[a]) as int].span.precedes(
                c[(#[trigger] order[b]) as int].span,
            ),
    ensures
        place(order, c, k).len() == order.len() + (if unclaimed(order, c, k) {
            1int
        } else {
            0int
        }),
    decreases order.len(),
{
    if order.len() > 0 {
        let last = order.last();
        let init = order.drop_last();
        assert(order[order.len() - 1] == last);
        if c[last as int].span == c[k as int].span {
        } else if c[last as int].span.precedes(c[k as int].span) {
            assert forall|a: int| 0 <= a < order.len() implies c[(#[trigger] order[a]) as int].span
                != c[k as int].span by {
                if a < order.len() - 1 {
                    assert(c[order[a] as int].span.precedes(c[order[order.len() - 1] as int].span));
                }
                lemma_precedes_total(c[order[a] as int].span, c[k as int].span);
            }
        } else {
            assert forall|a: int, b: int| 0 <= a < b < init.len() implies c[(#[trigger] init[a]) as int].span.precedes(
                c[(#[trigger] init[b]) as int].span,
            ) by {
                assert(init[a] == order[a] && init[b] == order[b]);
            }
            lemma_place_len(init, c, k);
            if unclaimed(init, c, k) {
                assert forall|a: int| 0 <= a < order.len() implies c[(#[trigger] order[a]) as int].span
                    != c[k as int].span by {
                    if a < order.len() - 1 {
                        assert(init[a] == order[a]);
                    }
                }
            } else {
                let a = choose|a: int| 0 <= a < init.len() && c[(#[trigger] init[a]) as int].span
                    == c[k as int].span;
                assert(order[a] == init[a]);
            }
        }
    }
}

/// Where no two candidates claim one span, none is dropped.
pub proof fn lemma_arrangement_keeps_all(c: Seq<CandidateModel>, n: nat)
    requires
        distinct_spans(c),
        n <= c.len(),
        n <= usize::MAX,
    ensures
        arrangement(c, n).len() == n,
    decreases n,
{
    if n > 0 {
        lemma_arrangement_keeps_all(c, (n - 1) as nat);
        lemma_arrangement(c, (n - 1) as nat);
        lemma_duplicate_is_claimed(c, (n - 1) as usize);
        lemma_place_len(arrangement(c, (n - 1) as nat), c, (n - 1) as usize);
    }
}

/// Top-level declarations are neither lost nor duplicated: where no two candidates
/// claim one span, every candidate becomes an entity, and there are exactly as many
/// top-level entities as there are top-level candidates.
pub proof fn lemma_top_level_preserved(c: Seq<CandidateModel>)
    requires
        well_formed(c),
        distinct_spans(c),
    ensures
        arranged(c).len() == c.len(),
        top_level_entities(arranged(c)).finite(),
        top_level_candidates(c).finite(),
        top_level_entities(arranged(c)).len() == top_level_candidates(c).len(),
{
    let n = c.len();
    let order = arrangement(c, n);
    let e = arranged(c);
    lemma_arrangement(c, n);
    lemma_arranged_swept(c);
    lemma_arrangement_keeps_all(c, n);
    let a_set = top_level_entities(e);
    let b_set = top_level_candidates(c);
    let f = |i: int| order[i] as int;
    vstd::set_lib::lemma_int_range(0, e.len() as int);
    assert(a_set.subset_of(vstd::set_lib::set_int_range(0, e.len() as int)));
    vstd::set_lib::lemma_len_subset(a_set, vstd::set_lib::set_int_range(0, e.len() as int));
    assert forall|x1: int, x2: int|
        a_set.contains(x1) && a_set.contains(x2) && #[trigger] f(x1) == #[trigger] f(x2) implies x1
        == x2 by {
        if x1 < x2 {
            assert(c[order[x1] as int].span.precedes(c[order[x2] as int].span));
        } else if x2 < x1 {
            assert(c[order[x2] as int].span.precedes(c[order[x1] as int].span));
        }
    }
    assert forall|k: int| a_set.map(f).contains(k) == b_set.contains(k) by {
        if a_set.map(f).contains(k) {
            let i = choose|i: int| a_set.contains(i) && k == f(i);
            assert(order[i] < n);
            if covered(c, k) {
                let j = choose|j: int|
                    0 <= j < c.len() && (#[trigger] c[j]).kind.is_scope() && c[j].span.contains(
                        c[k].span,
                    ) && c[j].span != c[k].span;
                assert(claimed(order, c, j));
                let b = choose|b: int|
                    0 <= b < order.len() && (#[trigger] order[b]) <= j && c[order[b] as int].span
                        == c[j].span;
                if order[b] < j {
                    assert(c[order[b] as int].span != c[j].span);
                }
                assert(e[b] == c[j]);
                lemma_container_precedes(c[j].span, c[k].span);
                if b > i {
                    assert(e[i].span.precedes(e[b].span));
                }
                assert(b < i);
                lemma_enclosing_found(e, i, i - 1);
                assert(e[b].kind.is_scope() && e[b].span.contains(e[i].span));
            }
        }
        if b_set.contains(k) {
            assert(claimed(order, c, k));
            let a = choose|a: int|
                0 <= a < order.len() && (#[trigger] order[a]) <= k && c[order[a] as int].span
                    == c[k].span;
            if order[a] < k {
                assert(c[order[a] as int].span != c[k].span);
            }
            lemma_enclosing_found(e, a, a - 1);
            match parent_of(e, a) {
                Some(p) => {
                    assert(e[p as int].span.precedes(e[a].span));
                    assert(order[p as int] < n);
                    assert(c[order[p as int] as int].kind.is_scope());
                    assert(covered(c, k));
                },
                None => {},
            }
            assert(a_set.contains(a) && k == f(a));
        }
    }
    assert(a_set.map(f) =~= b_set);
    vstd::set_lib::lemma_map_size(a_set, b_set, f);
}

/// Two candidate lists are laid out alike: their spans compare alike, pair by pair,
/// in equality, in sweep order and in containment.
pub open spec fn same_layout(c: Seq<CandidateModel>, d: Seq<CandidateModel>) -> bool {
    &&& c.len() == d.len()
    &&& forall|j: int, k: int|
        0 <= j < c.len() && 0 <= k < c.len() ==> {
            &&& ((#[trigger] c[j]).span == (#[trigger] c[k]).span) == (d[j].span == d[k].span)
            &&& c[j].span.precedes(c[k].span) == d[j].span.precedes(d[k].span)
            &&& c[j].span.contains(c[k].span) == d[j].span.contains(d[k].span)
        }
}

/// Two candidate lists declare the same: kind, name and signature agree, one by one.
pub open spec fn same_declarations(c: Seq<CandidateModel>, d: Seq<CandidateModel>) -> bool {
    &&& c.len() == d.len()
    &&& forall|k: int|
        0 <= k < c.len() ==> (#[trigger] c[k]).kind == d[k].kind && c[k].name == d[k].name
            && c[k].signature == d[k].signature
}

proof fn lemma_place_alike(order: Seq<usize>, c: Seq<CandidateModel>, d: Seq<CandidateModel>, k: usize)
    requires
        same_layout(c, d),
        k < c.len(),
        forall|a: int| 0 <= a < order.len() ==> (#[trigger] order[a]) < c.len(),
    ensures
        place(order, c, k) == place(order, d, k),
    decreases order.len(),
{
    if order.len() > 0 {
        let last = order.last();
        assert(order[order.len() - 1] == last);
        assert(c[last as int].span == c[k as int].span <==> d[last as int].span == d[k as int].span);
        assert(c[last as int].span.precedes(c[k as int].span) == d[last as int].span.precedes(
            d[k as int].span,
        ));
        let init = order.drop_last();
        assert forall|a: int| 0 <= a < init.len() implies (#[trigger] init[a]) < c.len() by {
            assert(init[a] == order[a]);
        }
        lemma_place_alike(init, c, d, k);
    }
}

proof fn lemma_arrangement_alike(c: Seq<CandidateModel>, d: Seq<CandidateModel>, n: nat)
    requires
        same_layout(c, d),
        n <= c.len(),
        n <= usize::MAX,
    ensures
        arrangement(c, n) == arrangement(d, n),
    decreases n,
{
    if n > 0 {
        lemma_arrangement_alike(c, d, (n - 1) as nat);
        lemma_arrangement(c, (n - 1) as nat);
        lemma_place_alike(arrangement(c, (n - 1) as nat), c, d, (n - 1) as usize);
    }
}

proof fn lemma_enclosing_alike(
    e: Seq<CandidateModel>,
    g: Seq<CandidateModel>,
    i: int,
    j: int,
)
    requires
        e.len() == g.len(),
        0 <= i < e.len(),
        j < e.len(),
        forall|x: int| 0 <= x < e.len() ==> (#[trigger] e[x]).kind == g[x].kind,
        forall|x: int, y: int|
            0 <= x < e.len() && 0 <= y < e.len() ==> (#[trigger] e[x]).span.contains((#[trigger] e[y]).span)
                == g[x].span.contains(g[y].span),
    ensures
        enclosing(e, i, j) == enclosing(g, i, j),
    decreases j + 1,
{
    if j >= 0 {
        assert(e[j].kind == g[j].kind);
        assert(e[j].span.contains(e[i].span) == g[j].span.contains(g[i].span));
        lemma_enclosing_alike(e, g, i, j - 1);
    }
}

proof fn lemma_path_alike(e: Seq<CandidateModel>, g: Seq<CandidateModel>, i: int)
    requires
        e.len() == g.len(),
        e.len() <= usize::MAX,
        0 <= i < e.len(),
        forall|x: int| 0 <= x < e.len() ==> (#[trigger] e[x]).kind == g[x].kind && e[x].name == g[x].name,
        forall|x: int, y: int|
            0 <= x < e.len() && 0 <= y < e.len() ==> (#[trigger] e[x]).span.contains((#[trigger] e[y]).span)
                == g[x].span.contains(g[y].span),
    ensures
        parent_of(e, i) == parent_of(g, i),
        path_of(e, i) == path_of(g, i),
        depth_of(e, i) == depth_of(g, i),
    decreases i,
{
    lemma_enclosing_alike(e, g, i, i - 1);
    lemma_enclosing_found(e, i, i - 1);
    match parent_of(e, i) {
        Some(p) => {
            lemma_path_alike(e, g, p as int);
        },
        None => {},
    }
}

/// Identifiers survive moves. Two candidate lists that declare the same and are
/// laid out alike, as the lists before and after an edit of a function's body are,
/// give the same entities in the same order, each with the same scope around it,
/// the same qualified path and the same identifier, wherever the spans now stand.
pub proof fn lemma_identifiers_survive_moves(c: Seq<CandidateModel>, d: Seq<CandidateModel>)
    requires
        c.len() <= usize::MAX,
        same_layout(c, d),
        same_declarations(c, d),
    ensures
        arrangement(c, c.len()) == arrangement(d, d.len()),
        arranged(c).len() == arranged(d).len(),
        forall|i: int|
            0 <= i < arranged(c).len() ==> {
                &&& parent_of(arranged(c), i) == parent_of(arranged(d), i)
                &&& (#[trigger] entity_at(arranged(c), i)).qualified_path == entity_at(
                    arranged(d),
                    i,
                ).qualified_path
                &&& identified(entity_at(arranged(c), i)).identifier == identified(
                    entity_at(arranged(d), i),
                ).identifier
            },
{
    let n = c.len();
    let order = arrangement(c, n);
    let e = arranged(c);
    let g = arranged(d);
    lemma_arrangement_alike(c, d, n);
    lemma_arrangement(c, n);
    assert(e.len() == g.len());
    assert forall|x: int| 0 <= x < e.len() implies (#[trigger] e[x]).kind == g[x].kind && e[x].name
        == g[x].name && e[x].signature == g[x].signature by {
        assert(order[x] < n);
        assert(c[order[x] as int].kind == d[order[x] as int].kind);
    }
    assert forall|x: int, y: int| 0 <= x < e.len() && 0 <= y < e.len() implies (#[trigger] e[x]).span.contains(
        (#[trigger] e[y]).span,
    ) == g[x].span.contains(g[y].span) by {
        assert(order[x] < n && order[y] < n);
        assert(c[order[x] as int].span.contains(c[order[y] as int].span) == d[order[x] as int].span.contains(
            d[order[y] as int].span,
        ));
    }
    lemma_arrangement_len(c, n);
    assert forall|i: int| 0 <= i < e.len() implies parent_of(e, i) == parent_of(g, i) && (
    #[trigger] entity_at(e, i)).qualified_path == entity_at(g, i).qualified_path && identified(
        entity_at(e, i),
    ).identifier == identified(entity_at(g, i)).identifier by {
        lemma_path_alike(e, g, i);
    }
}

/// An arrangement is no longer than the list it arranges.
proof fn lemma_arrangement_len(c: Seq<CandidateModel>, n: nat)
    requires
        n <= c.len(),
        n <= usize::MAX,
    ensures
        arrangement(c, n).len() <= n,
    decreases n,
{
    if n > 0 {
        lemma_arrangement_len(c, (n - 1) as nat);
        lemma_arrangement(c, (n - 1) as nat);
        lemma_place_len(arrangement(c, (n - 1) as nat), c, (n - 1) as usize);
    }
}

} // verus!
