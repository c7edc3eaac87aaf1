//! The uniform syntax tree that every adapter produces: nodes with a kind, a span
//! and children. A node says where in the source its name and its signature stand;
//! the text itself stays in the tree's copy of the source.

use vstd::prelude::*;
use crate::entity::{EntityKind, Modifiers};
use crate::span::Span;

verus! {

/// What a node of the tree is. The first eight kinds are declarations; the others
/// are carried for completeness and skipped by the reducer.
#[derive(Clone, Copy, Debug, PartialEq, Eq, Structural)]
pub enum NodeKind {
    Module,
    Type,
    Trait,
    Function,
    Implementation,
    Enum,
    EnumVariant,
    Field,
    /// A function signature without a body.
    Prototype,
    /// A well-delimited construct that is no declaration of interest.
    Other,
    /// A stretch of text that could not be parsed.
    Error,
}

impl NodeKind {
    /// The closed classification: the entity kind that a node kind denotes, or
    /// `None` for a node that is skipped.
    pub open spec fn entity_kind(self) -> Option<EntityKind> {
        match self {
            NodeKind::Module => Some(EntityKind::Module),
            NodeKind::Type => Some(EntityKind::Type),
            NodeKind::Trait => Some(EntityKind::Trait),
            NodeKind::Function => Some(EntityKind::Function),
            NodeKind::Implementation => Some(EntityKind::Implementation),
            NodeKind::Enum => Some(EntityKind::Enum),
            NodeKind::EnumVariant => Some(EntityKind::EnumVariant),
            NodeKind::Field => Some(EntityKind::Field),
            NodeKind::Prototype => None,
            NodeKind::Other => None,
            NodeKind::Error => None,
        }
    }

    pub fn classify(&self) -> (r: Option<EntityKind>)
        ensures
            r == self.entity_kind(),
    {
        match self {
            NodeKind::Module => Some(EntityKind::Module),
            NodeKind::Type => Some(EntityKind::Type),
            NodeKind::Trait => Some(EntityKind::Trait),
            NodeKind::Function => Some(EntityKind::Function),
            NodeKind::Implementation => Some(EntityKind::Implementation),
            NodeKind::Enum => Some(EntityKind::Enum),
            NodeKind::EnumVariant => Some(EntityKind::EnumVariant),
            NodeKind::Field => Some(EntityKind::Field),
            NodeKind::Prototype => None,
            NodeKind::Other => None,
            NodeKind::Error => None,
        }
    }
}

/// What a node says of itself.
#[derive(Clone, Copy, Debug)]
pub struct NodeInfo {
    pub kind: NodeKind,
    /// The whole construct.
    pub span: Span,
    /// Where its name stands; empty for a construct without one.
    pub name: Span,
    /// Where its signature stands: from its keyword to just before its body.
    pub header: Span,
    pub modifiers: Modifiers,
    /// For an implementation: where the name of its type stands. Empty otherwise.
    pub target: Span,
    /// For an implementation of a trait: where the trait's name stands.
    pub interface: Option<Span>,
}

#[derive(Debug)]
pub struct SyntaxNode {
    pub info: NodeInfo,
    pub children: Vec<SyntaxNode>,
}

/// The mathematical model of a node.
pub struct NodeModel {
    pub info: NodeInfo,
    pub children: Seq<NodeModel>,
}

pub open spec fn node_model(n: SyntaxNode) -> NodeModel
    decreases n,
{
    NodeModel {
        info: n.info,
        children: Seq::new(
            n.children.len() as nat,
            |i: int|
                if 0 <= i < n.children.len() {
                    node_model(n.children[i])
                } else {
                    arbitrary()
                },
        ),
    }
}

pub open spec fn forest_model(nodes: Seq<SyntaxNode>) -> Seq<NodeModel> {
    Seq::new(nodes.len(), |i: int| node_model(nodes[i]))
}

/// The model of a node's children is the model of its list of children.
pub proof fn lemma_children_model(n: SyntaxNode)
    ensures
        node_model(n).children == forest_model(n.children@),
{
    assert(node_model(n).children =~= forest_model(n.children@));
}

/// The spans that a node names lie inside a text of `len` bytes, and the node itself
/// is not empty.
pub open spec fn info_wf(info: NodeInfo, len: nat) -> bool {
    &&& info.span.wf()
    &&& info.span.end <= len
    &&& info.name.within(len)
    &&& info.header.within(len)
    &&& info.target.within(len)
    &&& match info.interface {
        Some(s) => s.within(len),
        None => true,
    }
}

pub open spec fn node_wf(n: NodeModel, len: nat) -> bool
    decreases n,
{
    &&& info_wf(n.info, len)
    &&& forall|i: int| 0 <= i < n.children.len() ==> node_wf(#[trigger] n.children[i], len)
}

pub open spec fn forest_wf(nodes: Seq<NodeModel>, len: nat) -> bool {
    forall|i: int| 0 <= i < nodes.len() ==> node_wf(#[trigger] nodes[i], len)
}

/// The nodes stand one after the other, none overlapping the next, all inside
/// `[lo, hi)`.
pub open spec fn laid_out(nodes: Seq<NodeModel>, lo: int, hi: int) -> bool {
    &&& forall|i: int|
        0 <= i < nodes.len() ==> lo <= (#[trigger] nodes[i]).info.span.start && nodes[i].info.span.end
            <= hi
    &&& forall|i: int, j: int|
        0 <= i < j < nodes.len() ==> (#[trigger] nodes[i]).info.span.end <= (
        #[trigger] nodes[j]).info.span.start
}

/// The node is not empty, its children stand in order strictly inside it, only a
/// declaration that opens a scope has children, and all this holds of the children
/// too.
pub open spec fn nested(n: NodeModel) -> bool
    decreases n,
{
    &&& n.info.span.wf()
    &&& laid_out(n.children, n.info.span.start + 1, n.info.span.end as int)
    &&& n.children.len() > 0 ==> match n.info.kind.entity_kind() {
        Some(k) => k.is_scope(),
        None => false,
    }
    &&& forall|i: int| 0 <= i < n.children.len() ==> nested(#[trigger] n.children[i])
}

pub open spec fn forest_nested(nodes: Seq<NodeModel>) -> bool {
    forall|i: int| 0 <= i < nodes.len() ==> nested(#[trigger] nodes[i])
}

/// A parsed source unit: the text and the top-level nodes found in it.
#[derive(Debug)]
pub struct SyntaxTree {
    pub source: Vec<u8>,
    pub roots: Vec<SyntaxNode>,
}

impl SyntaxTree {
    /// Every span of the tree lies inside the tree's source, and no node is empty.
    pub open spec fn wf(&self) -> bool {
        forest_wf(forest_model(self.roots@), self.source@.len())
    }

    /// Checks that the tree is well formed. A tree that an adapter of this library
    /// parsed always is; a tree built by hand may not be.
    pub fn is_well_formed(&self) -> (r: bool)
        ensures
            r == self.wf(),
    {
        forest_is_wf(&self.roots, self.source.len())
    }
}

fn span_is_within(span: &Span, len: usize) -> (r: bool)
    ensures
        r == span.within(len as nat),
{
    span.start <= span.end && span.end <= len
}

fn info_is_wf(info: &NodeInfo, len: usize) -> (r: bool)
    ensures
        r == info_wf(*info, len as nat),
{
    info.span.start < info.span.end && info.span.end <= len && span_is_within(&info.name, len)
        && span_is_within(&info.header, len) && span_is_within(&info.target, len) && match info.interface {
        Some(s) => span_is_within(&s, len),
        None => true,
    }
}

fn node_is_wf(node: &SyntaxNode, len: usize) -> (r: bool)
    ensures
        r == node_wf(node_model(*node), len as nat),
    decreases node, 1nat,
{
    proof {
        lemma_children_model(*node);
    }
    info_is_wf(&node.info, len) && forest_is_wf(&node.children, len)
}

fn forest_is_wf(nodes: &Vec<SyntaxNode>, len: usize) -> (r: bool)
    ensures
        r == forest_wf(forest_model(nodes@), len as nat),
    decreases nodes, 0nat,
{
    let mut i: usize = 0;
    while i < nodes.len()
        invariant
            i <= nodes.len(),
            forall|j: int| 0 <= j < i ==> node_wf(#[trigger] forest_model(nodes@)[j], len as nat),
        decreases nodes.len() - i,
    {
        if !node_is_wf(&nodes[i], len) {
            assert(!node_wf(forest_model(nodes@)[i as int], len as nat));
            return false;
        }
        i = i + 1;
    }
    true
}

} // verus!
