//! The relationship linker: from candidate entities to linked entities and edges.
//!
//! Candidates are arranged in sweep order, duplicates of a span are dropped, a
//! stack-based sweep derives the scope around each entity from span containment, and
//! each implementation is matched by name against the types and traits that its own
//! scope declares.

pub mod order;
pub mod nesting;
pub mod edges;
pub mod properties;

use vstd::prelude::*;
use crate::diagnostics::Diagnostic;
use crate::entity::{
    CandidateEntity, CandidateModel, Entity, EntityKind, RelationshipEdge, RelationshipKind,
    candidate_models, entity_models,
};
use crate::identity::normalize_signature;
use crate::linker::edges::{
    contains_edge, declared, edges_at, edges_upto, entities_of, entity_at, method_edge, unresolved_at, unresolved_upto,
};
use crate::linker::nesting::{
    lemma_arranged_swept, lemma_depth_bound, lemma_enclosing_found, nest, parent_of,
    path_of, swept, well_formed,
};
use crate::linker::order::{arrange, arranged, duplicates, lemma_arrangement};
use crate::text::{bytes_equal, copy_bytes, copy_path, path_model};

verus! {

/// What the linker returns.
#[derive(Debug)]
pub struct Linked {
    /// The entities in sweep order, without identifiers.
    pub entities: Vec<Entity>,
    /// The edges, each between two positions of `entities`.
    pub edges: Vec<RelationshipEdge>,
    /// Dropped duplicates, then unresolved implementations.
    pub diagnostics: Vec<Diagnostic>,
}

impl Linked {
    /// `self` is the linking of the candidates `c`.
    pub open spec fn links(&self, c: Seq<CandidateModel>) -> bool {
        let e = arranged(c);
        &&& entity_models(self.entities@) == entities_of(e)
        &&& self.edges@ == edges_upto(e, e.len())
        &&& self.diagnostics@ == duplicates(c, c.len()) + unresolved_upto(e, e.len())
    }
}

/// The arranged candidates `e` as the executable code holds them.
spec fn held(
    candidates: Seq<CandidateEntity>,
    order: Seq<usize>,
    parents: Seq<Option<usize>>,
    e: Seq<CandidateModel>,
) -> bool {
    &&& e == arranged(candidate_models(candidates))
    &&& swept(e)
    &&& order.len() == e.len()
    &&& parents.len() == e.len()
    &&& forall|a: int| 0 <= a < e.len() ==> (#[trigger] order[a]) < candidates.len()
    &&& forall|a: int| 0 <= a < e.len() ==> (#[trigger] e[a]) == candidates[order[a] as int]@
    &&& forall|a: int| 0 <= a < e.len() ==> #[trigger] parents[a] == parent_of(e, a)
}

fn same_scope(a: Option<usize>, b: Option<usize>) -> (r: bool)
    ensures
        r == (a == b),
{
    match a {
        Some(x) => match b {
            Some(y) => x == y,
            None => false,
        },
        None => match b {
            Some(_) => false,
            None => true,
        },
    }
}

/// Looks a name up among the declarations of one scope.
fn find_declared(
    candidates: &Vec<CandidateEntity>,
    order: &Vec<usize>,
    parents: &Vec<Option<usize>>,
    scope: Option<usize>,
    wanted: EntityKind,
    name: &[u8],
    Ghost(e): Ghost<Seq<CandidateModel>>,
) -> (r: Option<usize>)
    requires
        held(candidates@, order@, parents@, e),
    ensures
        r == declared(e, scope, wanted, name@, 0),
{
    let mut j: usize = 0;
    while j < order.len()
        invariant
            j <= order.len(),
            held(candidates@, order@, parents@, e),
            declared(e, scope, wanted, name@, 0) == declared(e, scope, wanted, name@, j as int),
        decreases order.len() - j,
    {
        let other = &candidates[order[j]];
        assert(e[j as int] == other@);
        if other.kind == wanted && bytes_equal(other.name.as_slice(), name) && same_scope(
            parents[j],
            scope,
        ) {
            return Some(j);
        }
        j = j + 1;
    }
    None
}

/// Checks that every candidate has a span that is not empty, which is what `link`
/// asks of its input.
pub fn candidates_well_formed(candidates: &Vec<CandidateEntity>) -> (r: bool)
    ensures
        r == well_formed(candidate_models(candidates@)),
{
    let mut k: usize = 0;
    while k < candidates.len()
        invariant
            k <= candidates.len(),
            forall|j: int| 0 <= j < k ==> (#[trigger] candidate_models(candidates@)[j]).span.wf(),
        decreases candidates.len() - k,
    {
        if !candidates[k].span.is_well_formed() {
            assert(!candidate_models(candidates@)[k as int].span.wf());
            return false;
        }
        k = k + 1;
    }
    true
}

/// Links the candidates: arranges them in sweep order, drops duplicates of a span,
/// derives the scope around each entity, qualifies each entity by the names of its
/// scopes, resolves each implementation's type and trait within its scope, and
/// lists the `Contains`, `DeclaresMethodOf` and `Implements` edges.
pub fn link(candidates: &Vec<CandidateEntity>) -> (out: Linked)
    requires
        well_formed(candidate_models(candidates@)),
    ensures
        out.links(candidate_models(candidates@)),
{
    let ghost c = candidate_models(candidates@);
    let ghost e = arranged(c);
    let (order, dropped) = arrange(candidates);
    let parents = nest(candidates, &order);
    proof {
        lemma_arrangement(c, c.len());
        lemma_arranged_swept(c);
    }
    let n = order.len();
    let mut entities: Vec<Entity> = Vec::new();
    let mut edges: Vec<RelationshipEdge> = Vec::new();
    let mut diagnostics: Vec<Diagnostic> = dropped;
    let mut i: usize = 0;
    while i < n
        invariant
            i <= n,
            n == e.len(),
            held(candidates@, order@, parents@, e),
            entities.len() == i,
            forall|t: int| 0 <= t < i ==> (#[trigger] entities[t])@ == entity_at(e, t),
            edges@ == edges_upto(e, i as nat),
            diagnostics@ == duplicates(c, c.len()) + unresolved_upto(e, i as nat),
        decreases n - i,
    {
        let candidate = &candidates[order[i]];
        assert(e[i as int] == candidate@);
        let parent = parents[i];
        let ghost edges_before = edges@;
        let ghost diagnostics_before = diagnostics@;
        proof {
            lemma_enclosing_found(e, i as int, i - 1);
        }
        let mut depth: usize = 0;
        let mut path: Vec<Vec<u8>> = Vec::new();
        match parent {
            Some(p) => {
                proof {
                    lemma_depth_bound(e, p as int);
                    assert(entities[p as int]@ == entity_at(e, p as int));
                }
                depth = entities[p].depth + 1;
                path = copy_path(&entities[p].qualified_path);
                let ghost copied = path@;
                path.push(copy_bytes(entities[p].name.as_slice()));
                proof {
                    assert(path_model(path@) =~= path_model(copied).push(e[p as int].name));
                }
                edges.push(RelationshipEdge { kind: RelationshipKind::Contains, from: p, to: i });
                let is_method = match candidate.kind {
                    EntityKind::Function => candidates[order[p]].kind.has_methods(),
                    _ => false,
                };
                assert(e[p as int] == candidates[order[p as int] as int]@);
                if is_method {
                    edges.push(
                        RelationshipEdge { kind: RelationshipKind::DeclaresMethodOf, from: i, to: p },
                    );
                }
            },
            None => {
                assert(path_model(path@) =~= Seq::<Seq<u8>>::empty());
            },
        }
        assert(edges@ =~= edges_before + contains_edge(e, i as int) + method_edge(e, i as int));
        let mut unresolved_target = false;
        let mut unresolved_interface = false;
        match candidate.kind {
            EntityKind::Implementation => {
                let target = find_declared(
                    candidates,
                    &order,
                    &parents,
                    parent,
                    EntityKind::Type,
                    candidate.target.as_slice(),
                    Ghost(e),
                );
                match target {
                    Some(t) => {
                        edges.push(
                            RelationshipEdge { kind: RelationshipKind::Implements, from: i, to: t },
                        );
                    },
                    None => {
                        unresolved_target = true;
                        diagnostics.push(
                            Diagnostic::UnresolvedRelationship {
                                span: candidate.span,
                                missing: EntityKind::Type,
                            },
                        );
                    },
                }
                match &candidate.interface {
                    Some(name) => {
                        let interface = find_declared(
                            candidates,
                            &order,
                            &parents,
                            parent,
                            EntityKind::Trait,
                            name.as_slice(),
                            Ghost(e),
                        );
                        match interface {
                            Some(s) => {
                                edges.push(
                                    RelationshipEdge {
                                        kind: RelationshipKind::Implements,
                                        from: i,
                                        to: s,
                                    },
                                );
                            },
                            None => {
                                unresolved_interface = true;
                                diagnostics.push(
                                    Diagnostic::UnresolvedRelationship {
                                        span: candidate.span,
                                        missing: EntityKind::Trait,
                                    },
                                );
                            },
                        }
                    },
                    None => {},
                }
            },
            _ => {},
        }
        proof {
            assert(edges@ =~= edges_before + edges_at(e, i as int));
            assert(diagnostics@ =~= diagnostics_before + unresolved_at(e, i as int));
            assert(edges_upto(e, (i + 1) as nat) == edges_upto(e, i as nat) + edges_at(e, i as int));
            assert(diagnostics@ =~= duplicates(c, c.len()) + unresolved_upto(e, (i + 1) as nat));
        }
        let entity = Entity {
            kind: candidate.kind,
            name: copy_bytes(candidate.name.as_slice()),
            qualified_path: path,
            signature: normalize_signature(candidate.signature.as_slice()),
            span: candidate.span,
            modifiers: candidate.modifiers,
            depth,
            unresolved_target,
            unresolved_interface,
            identifier: Vec::new(),
        };
        proof {
            assert(entity@.identifier =~= Seq::<u8>::empty());
            assert(entity@.qualified_path =~= path_of(e, i as int));
            assert(entity@ == entity_at(e, i as int));
        }
        entities.push(entity);
        i = i + 1;
    }
    proof {
        assert(entity_models(entities@) =~= entities_of(e));
    }
    Linked { entities, edges, diagnostics }
}

} // verus!
