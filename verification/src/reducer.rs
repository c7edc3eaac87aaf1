//! The entity reducer: a depth-first walk of the syntax tree that yields one
//! candidate entity for each node of a recognized kind. Nodes of any other kind
//! yield nothing, and their children are still visited.

use vstd::prelude::*;
use crate::entity::{CandidateEntity, CandidateModel, EntityKind, candidate_models};
use crate::linker::nesting::well_formed;
use crate::span::Span;
use crate::syntax::tree::{
    NodeInfo, NodeModel, SyntaxNode, SyntaxTree, forest_model, forest_wf, lemma_children_model, node_model, node_wf,
};
use crate::text::copy_range;

verus! {

/// The text that `span` covers.
pub open spec fn text_of(source: Seq<u8>, span: Span) -> Seq<u8> {
    source.subrange(span.start as int, span.end as int)
}

/// One level deeper; the count stops at the largest machine integer.
pub open spec fn deeper(depth: nat) -> nat {
    if depth < usize::MAX {
        depth + 1
    } else {
        depth
    }
}

/// The candidate that a node of entity kind `kind` yields at nesting depth `depth`.
pub open spec fn candidate_of(source: Seq<u8>, info: NodeInfo, kind: EntityKind, depth: nat) -> CandidateModel {
    CandidateModel {
        kind,
        name: text_of(source, info.name),
        signature: text_of(source, info.header),
        span: info.span,
        depth,
        modifiers: info.modifiers,
        target: text_of(source, info.target),
        interface: match info.interface {
            Some(s) => Some(text_of(source, s)),
            None => None,
        },
    }
}

/// The candidates of `n` and of everything below it, in depth-first order.
pub open spec fn reduce_node(source: Seq<u8>, n: NodeModel, depth: nat) -> Seq<CandidateModel>
    decreases n, 1nat,
{
    let own: Seq<CandidateModel> = match n.info.kind.entity_kind() {
        Some(kind) => seq![candidate_of(source, n.info, kind, depth)],
        None => Seq::empty(),
    };
    own + reduce_forest(source, n.children, deeper(depth))
}

pub open spec fn reduce_forest(source: Seq<u8>, nodes: Seq<NodeModel>, depth: nat) -> Seq<CandidateModel>
    decreases nodes, 0nat,
{
    if nodes.len() == 0 {
        Seq::empty()
    } else {
        reduce_forest(source, nodes.drop_last(), depth) + reduce_node(source, nodes.last(), depth)
    }
}

/// Every candidate has a span that is not empty.
pub open spec fn spans_wf(c: Seq<CandidateModel>) -> bool {
    forall|k: int| 0 <= k < c.len() ==> (#[trigger] c[k]).span.wf()
}

fn walk(source: &[u8], node: &SyntaxNode, depth: usize, out: &mut Vec<CandidateEntity>)
    requires
        node_wf(node_model(*node), source@.len()),
        spans_wf(candidate_models(old(out)@)),
    ensures
        candidate_models(final(out)@) == candidate_models(old(out)@) + reduce_node(
            source@,
            node_model(*node),
            depth as nat,
        ),
        spans_wf(candidate_models(final(out)@)),
    decreases node, 1nat,
{
    let info = &node.info;
    let ghost before = out@;
    match info.kind.classify() {
        Some(kind) => {
            let interface = match info.interface {
                Some(s) => Some(copy_range(source, s.start, s.end)),
                None => None,
            };
            let candidate = CandidateEntity {
                kind,
                name: copy_range(source, info.name.start, info.name.end),
                signature: copy_range(source, info.header.start, info.header.end),
                span: info.span,
                depth,
                modifiers: info.modifiers,
                target: copy_range(source, info.target.start, info.target.end),
                interface,
            };
            assert(candidate@ == candidate_of(source@, node.info, kind, depth as nat));
            out.push(candidate);
            proof {
                assert(candidate_models(out@) =~= candidate_models(before).push(candidate@));
            }
        },
        None => {},
    }
    let below = if depth < usize::MAX {
        depth + 1
    } else {
        depth
    };
    proof {
        lemma_children_model(*node);
    }
    walk_all(source, &node.children, below, out);
    proof {
        assert(candidate_models(out@) =~= candidate_models(before) + reduce_node(
            source@,
            node_model(*node),
            depth as nat,
        ));
    }
}

fn walk_all(source: &[u8], nodes: &Vec<SyntaxNode>, depth: usize, out: &mut Vec<CandidateEntity>)
    requires
        forest_wf(forest_model(nodes@), source@.len()),
        spans_wf(candidate_models(old(out)@)),
    ensures
        candidate_models(final(out)@) == candidate_models(old(out)@) + reduce_forest(
            source@,
            forest_model(nodes@),
            depth as nat,
        ),
        spans_wf(candidate_models(final(out)@)),
    decreases nodes, 0nat,
{
    let ghost model = forest_model(nodes@);
    let ghost start = candidate_models(out@);
    let mut i: usize = 0;
    proof {
        assert(start =~= start + reduce_forest(source@, model.take(0), depth as nat));
    }
    while i < nodes.len()
        invariant
            i <= nodes.len(),
            model == forest_model(nodes@),
            forest_wf(model, source@.len()),
            candidate_models(out@) == start + reduce_forest(source@, model.take(i as int), depth as nat),
            spans_wf(candidate_models(out@)),
        decreases nodes.len() - i,
    {
        assert(model[i as int] == node_model(nodes[i as int]));
        walk(source, &nodes[i], depth, out);
        proof {
            assert(model.take(i + 1).drop_last() =~= model.take(i as int));
            assert(model.take(i + 1).last() == node_model(nodes[i as int]));
            assert(candidate_models(out@) =~= start + reduce_forest(
                source@,
                model.take(i + 1),
                depth as nat,
            ));
        }
        i = i + 1;
    }
    proof {
        assert(model.take(nodes.len() as int) =~= model);
    }
}

/// Reduces a syntax tree to its candidate entities, in depth-first order. Each
/// candidate carries the raw text of its name and signature, its span, and the
/// depth at which its node stands.
pub fn reduce(tree: &SyntaxTree) -> (out: Vec<CandidateEntity>)
    requires
        tree.wf(),
    ensures
        candidate_models(out@) == reduce_forest(tree.source@, forest_model(tree.roots@), 0),
        well_formed(candidate_models(out@)),
{
    let mut out: Vec<CandidateEntity> = Vec::new();
    walk_all(tree.source.as_slice(), &tree.roots, 0, &mut out);
    proof {
        assert(candidate_models(out@) =~= reduce_forest(tree.source@, forest_model(tree.roots@), 0));
        assert(candidate_models(out@).len() == out.len());
        assert(spans_wf(candidate_models(out@)));
    }
    out
}

} // verus!
