//! What the linker derives from the arranged candidates: the linked entities, the
//! relationship edges and the unresolved implementations.

use vstd::prelude::*;
use crate::diagnostics::Diagnostic;
use crate::entity::{CandidateModel, EntityKind, EntityModel, RelationshipEdge, RelationshipKind};
use crate::identity::normalized;
use crate::linker::nesting::{depth_of, lemma_enclosing_found, parent_of, path_of};
use crate::table::edges_in_range;

verus! {

/// The first entity at or after `from` of kind `wanted` and name `name` that is
/// declared directly in `scope`.
pub open spec fn declared(
    e: Seq<CandidateModel>,
    scope: Option<usize>,
    wanted: EntityKind,
    name: Seq<u8>,
    from: int,
) -> Option<usize>
    decreases e.len() - from,
{
    if from < 0 || from >= e.len() {
        None
    } else if e[from].kind == wanted && e[from].name == name && parent_of(e, from) == scope {
        Some(from as usize)
    } else {
        declared(e, scope, wanted, name, from + 1)
    }
}

/// The type that implementation `i` is for, where its own scope declares one.
pub open spec fn target_of(e: Seq<CandidateModel>, i: int) -> Option<usize> {
    if e[i].kind is Implementation {
        declared(e, parent_of(e, i), EntityKind::Type, e[i].target, 0)
    } else {
        None
    }
}

/// The trait that implementation `i` fulfils, where its own scope declares one.
pub open spec fn interface_of(e: Seq<CandidateModel>, i: int) -> Option<usize> {
    if e[i].kind is Implementation {
        match e[i].interface {
            Some(name) => declared(e, parent_of(e, i), EntityKind::Trait, name, 0),
            None => None,
        }
    } else {
        None
    }
}

/// Implementation `i` names a type that its scope does not declare.
pub open spec fn lacks_target(e: Seq<CandidateModel>, i: int) -> bool {
    e[i].kind is Implementation && target_of(e, i) is None
}

/// Implementation `i` names a trait that its scope does not declare.
pub open spec fn lacks_interface(e: Seq<CandidateModel>, i: int) -> bool {
    e[i].kind is Implementation && e[i].interface is Some && interface_of(e, i) is None
}

/// The linked entity at position `i`, before identities are assigned.
pub open spec fn entity_at(e: Seq<CandidateModel>, i: int) -> EntityModel {
    EntityModel {
        kind: e[i].kind,
        name: e[i].name,
        qualified_path: path_of(e, i),
        signature: normalized(e[i].signature),
        span: e[i].span,
        modifiers: e[i].modifiers,
        depth: depth_of(e, i),
        unresolved_target: lacks_target(e, i),
        unresolved_interface: lacks_interface(e, i),
        identifier: Seq::empty(),
    }
}

/// All linked entities.
pub open spec fn entities_of(e: Seq<CandidateModel>) -> Seq<EntityModel> {
    Seq::new(e.len(), |i: int| entity_at(e, i))
}

/// The edge from the scope around entity `i` to entity `i`.
pub open spec fn contains_edge(e: Seq<CandidateModel>, i: int) -> Seq<RelationshipEdge> {
    match parent_of(e, i) {
        Some(p) => seq![RelationshipEdge { kind: RelationshipKind::Contains, from: p, to: i as usize }],
        None => Seq::empty(),
    }
}

/// The edge from function `i` to the implementation or type in whose body it stands.
pub open spec fn method_edge(e: Seq<CandidateModel>, i: int) -> Seq<RelationshipEdge> {
    match parent_of(e, i) {
        Some(p) => if e[i].kind is Function && e[p as int].kind.holds_methods() {
            seq![RelationshipEdge { kind: RelationshipKind::DeclaresMethodOf, from: i as usize, to: p }]
        } else {
            Seq::empty()
        },
        None => Seq::empty(),
    }
}

/// The edge from implementation `i` to its type.
pub open spec fn target_edge(e: Seq<CandidateModel>, i: int) -> Seq<RelationshipEdge> {
    match target_of(e, i) {
        Some(t) => seq![RelationshipEdge { kind: RelationshipKind::Implements, from: i as usize, to: t }],
        None => Seq::empty(),
    }
}

/// The edge from implementation `i` to its trait.
pub open spec fn interface_edge(e: Seq<CandidateModel>, i: int) -> Seq<RelationshipEdge> {
    match interface_of(e, i) {
        Some(s) => seq![RelationshipEdge { kind: RelationshipKind::Implements, from: i as usize, to: s }],
        None => Seq::empty(),
    }
}

/// The edges that entity `i` brings.
pub open spec fn edges_at(e: Seq<CandidateModel>, i: int) -> Seq<RelationshipEdge> {
    contains_edge(e, i) + method_edge(e, i) + target_edge(e, i) + interface_edge(e, i)
}

/// The edges that the first `n` entities bring, in their order.
pub open spec fn edges_upto(e: Seq<CandidateModel>, n: nat) -> Seq<RelationshipEdge>
    decreases n,
{
    if n == 0 {
        Seq::empty()
    } else {
        edges_upto(e, (n - 1) as nat) + edges_at(e, n - 1)
    }
}

/// The diagnostics that entity `i` brings.
pub open spec fn unresolved_at(e: Seq<CandidateModel>, i: int) -> Seq<Diagnostic> {
    let target: Seq<Diagnostic> = if lacks_target(e, i) {
        seq![Diagnostic::UnresolvedRelationship { span: e[i].span, missing: EntityKind::Type }]
    } else {
        Seq::empty()
    };
    let interface: Seq<Diagnostic> = if lacks_interface(e, i) {
        seq![Diagnostic::UnresolvedRelationship { span: e[i].span, missing: EntityKind::Trait }]
    } else {
        Seq::empty()
    };
    target + interface
}

/// The diagnostics that the first `n` entities bring, in their order.
pub open spec fn unresolved_upto(e: Seq<CandidateModel>, n: nat) -> Seq<Diagnostic>
    decreases n,
{
    if n == 0 {
        Seq::empty()
    } else {
        unresolved_upto(e, (n - 1) as nat) + unresolved_at(e, n - 1)
    }
}

/// What `declared` finds is the first declaration of that kind and name in the
/// scope; when it finds nothing there is none.
pub proof fn lemma_declared(
    e: Seq<CandidateModel>,
    scope: Option<usize>,
    wanted: EntityKind,
    name: Seq<u8>,
    from: int,
)
    requires
        0 <= from,
        e.len() <= usize::MAX,
    ensures
        match declared(e, scope, wanted, name, from) {
            Some(j) => {
                &&& from <= j < e.len()
                &&& e[j as int].kind == wanted
                &&& e[j as int].name == name
                &&& parent_of(e, j as int) == scope
                &&& forall|t: int|
                    from <= t < j ==> !((#[trigger] e[t]).kind == wanted && e[t].name == name
                        && parent_of(e, t) == scope)
            },
            None => forall|t: int|
                from <= t < e.len() ==> !((#[trigger] e[t]).kind == wanted && e[t].name == name
                    && parent_of(e, t) == scope),
        },
    decreases e.len() - from,
{
    if from < e.len() && !(e[from].kind == wanted && e[from].name == name && parent_of(e, from)
        == scope) {
        lemma_declared(e, scope, wanted, name, from + 1);
    }
}

/// The edges that entity `i` brings join entities of the list; a `Contains` edge
/// goes from an earlier entity to entity `i`, and every other edge leaves entity `i`.
pub proof fn lemma_edges_at(e: Seq<CandidateModel>, i: int)
    requires
        0 <= i < e.len(),
        e.len() <= usize::MAX,
    ensures
        forall|k: int|
            0 <= k < edges_at(e, i).len() ==> {
                let edge = #[trigger] edges_at(e, i)[k];
                &&& edge.from < e.len()
                &&& edge.to < e.len()
                &&& edge.kind is Contains ==> edge.from < edge.to && edge.to == i && Some(edge.from)
                    == parent_of(e, i)
                &&& !(edge.kind is Contains) ==> edge.from == i
            },
{
    lemma_enclosing_found(e, i, i - 1);
    if e[i].kind is Implementation {
        lemma_declared(e, parent_of(e, i), EntityKind::Type, e[i].target, 0);
        match e[i].interface {
            Some(name) => {
                lemma_declared(e, parent_of(e, i), EntityKind::Trait, name, 0);
            },
            None => {},
        }
    }
}

/// Every edge joins two entities of the list.
pub proof fn lemma_edges_in_range(e: Seq<CandidateModel>, n: nat)
    requires
        n <= e.len(),
        e.len() <= usize::MAX,
    ensures
        edges_in_range(edges_upto(e, n), e.len()),
    decreases n,
{
    if n > 0 {
        lemma_edges_in_range(e, (n - 1) as nat);
        lemma_edges_at(e, n - 1);
        let before = edges_upto(e, (n - 1) as nat);
        let now = edges_upto(e, n);
        assert forall|k: int| 0 <= k < now.len() implies (#[trigger] now[k]).from < e.len() && now[k].to
            < e.len() by {
            if k < before.len() {
                assert(now[k] == before[k]);
            } else {
                assert(now[k] == edges_at(e, n - 1)[k - before.len()]);
            }
        }
    }
}

} // verus!
