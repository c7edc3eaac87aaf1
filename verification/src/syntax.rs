//! The syntax adapter: from source text and a language tag to a tolerant syntax
//! tree. Text that cannot be parsed comes back as error nodes inside the tree; only
//! a language without an adapter, or a buffer in which nothing is a declaration and
//! something is an error, fails the whole unit.

pub mod token;
pub mod tree;
pub mod scan;
pub mod rust;
pub mod layout;

use vstd::prelude::*;
use crate::diagnostics::{Diagnostic, ExtractError};
use crate::span::Span;
use crate::syntax::rust::{parse_rust, rust_forest};
use crate::syntax::token::spells;
use crate::syntax::tree::{NodeModel, SyntaxNode, SyntaxTree, forest_model, lemma_children_model, node_model};
use crate::text::copy_bytes;

verus! {

/// The languages a source unit can be tagged with.
#[derive(Clone, Copy, Debug, PartialEq, Eq, Structural)]
pub enum Language {
    Rust,
    Python,
    TypeScript,
}

/// The language that a tag names: `rust`, `python` or `typescript`.
pub open spec fn language_of(tag: Seq<u8>) -> Option<Language> {
    if tag == seq![0x72u8, 0x75, 0x73, 0x74] {
        Some(Language::Rust)
    } else if tag == seq![0x70u8, 0x79, 0x74, 0x68, 0x6f, 0x6e] {
        Some(Language::Python)
    } else if tag == seq![0x74u8, 0x79, 0x70, 0x65, 0x73, 0x63, 0x72, 0x69, 0x70, 0x74] {
        Some(Language::TypeScript)
    } else {
        None
    }
}

impl Language {
    /// Reads a language tag. `None` for a tag that names no language of the set.
    pub fn from_tag(tag: &[u8]) -> (r: Option<Language>)
        ensures
            r == language_of(tag@),
    {
        let rust: [u8; 4] = [0x72, 0x75, 0x73, 0x74];
        let python: [u8; 6] = [0x70, 0x79, 0x74, 0x68, 0x6f, 0x6e];
        let typescript: [u8; 10] = [0x74, 0x79, 0x70, 0x65, 0x73, 0x63, 0x72, 0x69, 0x70, 0x74];
        proof {
            assert(rust@ =~= seq![0x72u8, 0x75, 0x73, 0x74]);
            assert(python@ =~= seq![0x70u8, 0x79, 0x74, 0x68, 0x6f, 0x6e]);
            assert(typescript@ =~= seq![0x74u8, 0x79, 0x70, 0x65, 0x73, 0x63, 0x72, 0x69, 0x70, 0x74]);
            assert(tag@.subrange(0, tag@.len() as int) =~= tag@);
        }
        if spells(tag, 0, tag.len(), &rust) {
            Some(Language::Rust)
        } else if spells(tag, 0, tag.len(), &python) {
            Some(Language::Python)
        } else if spells(tag, 0, tag.len(), &typescript) {
            Some(Language::TypeScript)
        } else {
            None
        }
    }

    /// Whether a syntax adapter is registered for the language.
    pub open spec fn has_adapter(self) -> bool {
        self is Rust
    }

    pub fn is_supported(&self) -> (r: bool)
        ensures
            r == self.has_adapter(),
    {
        match self {
            Language::Rust => true,
            _ => false,
        }
    }
}

/// The span of the first error node among `roots[from..]`.
pub open spec fn first_error(roots: Seq<NodeModel>, from: int) -> Option<Span>
    decreases roots.len() - from,
{
    if from < 0 || from >= roots.len() {
        None
    } else if roots[from].info.kind is Error {
        Some(roots[from].info.span)
    } else {
        first_error(roots, from + 1)
    }
}

/// One of the first `n` roots is a declaration.
pub open spec fn declares(roots: Seq<NodeModel>, n: int) -> bool
    decreases n,
{
    n > 0 && (roots[n - 1].info.kind.entity_kind() is Some || declares(roots, n - 1))
}

/// Where a buffer that is unparseable as a whole first goes wrong: nothing at its
/// top level is a declaration, and something there is an error.
pub open spec fn unparseable(roots: Seq<NodeModel>) -> Option<Span> {
    if declares(roots, roots.len() as int) {
        None
    } else {
        first_error(roots, 0)
    }
}

/// What parsing `source` as `language` gives.
pub open spec fn parsed(source: Seq<u8>, language: Language) -> Result<Seq<NodeModel>, ExtractError> {
    if !language.has_adapter() {
        Err(ExtractError::UnsupportedLanguage)
    } else {
        let roots = rust_forest(source);
        match unparseable(roots) {
            Some(span) => Err(ExtractError::Unparseable { span }),
            None => Ok(roots),
        }
    }
}

fn find_unparseable(roots: &Vec<SyntaxNode>) -> (r: Option<Span>)
    ensures
        r == unparseable(forest_model(roots@)),
{
    let ghost model = forest_model(roots@);
    let mut declared = false;
    let mut i: usize = 0;
    while i < roots.len()
        invariant
            i <= roots.len(),
            model == forest_model(roots@),
            declared == declares(model, i as int),
        decreases roots.len() - i,
    {
        assert(model[i as int].info == roots[i as int].info);
        if roots[i].info.kind.classify().is_some() {
            declared = true;
        }
        i = i + 1;
    }
    if declared {
        return None;
    }
    let mut j: usize = 0;
    while j < roots.len()
        invariant
            j <= roots.len(),
            model == forest_model(roots@),
            !declares(model, model.len() as int),
            first_error(model, 0) == first_error(model, j as int),
        decreases roots.len() - j,
    {
        assert(model[j as int].info == roots[j as int].info);
        match roots[j].info.kind {
            crate::syntax::tree::NodeKind::Error => {
                return Some(roots[j].info.span);
            },
            _ => {},
        }
        j = j + 1;
    }
    None
}

/// Parses one source unit.
pub fn parse(source: &[u8], language: Language) -> (r: Result<SyntaxTree, ExtractError>)
    ensures
        match r {
            Ok(tree) => parsed(source@, language) == Ok::<Seq<NodeModel>, ExtractError>(
                forest_model(tree.roots@),
            ) && tree.source@ == source@ && tree.wf(),
            Err(e) => parsed(source@, language) == Err::<Seq<NodeModel>, ExtractError>(e),
        },
{
    if !language.is_supported() {
        return Err(ExtractError::UnsupportedLanguage);
    }
    let roots = parse_rust(source);
    match find_unparseable(&roots) {
        Some(span) => Err(ExtractError::Unparseable { span }),
        None => Ok(SyntaxTree { source: copy_bytes(source), roots }),
    }
}

/// One syntax error for each error node of `n` and below, in source order.
pub open spec fn errors_in_node(n: NodeModel) -> Seq<Diagnostic>
    decreases n, 1nat,
{
    let own: Seq<Diagnostic> = if n.info.kind is Error {
        seq![Diagnostic::SyntaxError { span: n.info.span }]
    } else {
        Seq::empty()
    };
    own + errors_in_forest(n.children)
}

pub open spec fn errors_in_forest(nodes: Seq<NodeModel>) -> Seq<Diagnostic>
    decreases nodes, 0nat,
{
    if nodes.len() == 0 {
        Seq::empty()
    } else {
        errors_in_forest(nodes.drop_last()) + errors_in_node(nodes.last())
    }
}

fn collect_errors(node: &SyntaxNode, out: &mut Vec<Diagnostic>)
    ensures
        final(out)@ == old(out)@ + errors_in_node(node_model(*node)),
    decreases node, 1nat,
{
    match node.info.kind {
        crate::syntax::tree::NodeKind::Error => {
            out.push(Diagnostic::SyntaxError { span: node.info.span });
        },
        _ => {},
    }
    collect_all_errors(&node.children, out);
    proof {
        lemma_children_model(*node);
        assert(out@ =~= old(out)@ + errors_in_node(node_model(*node)));
    }
}

fn collect_all_errors(nodes: &Vec<SyntaxNode>, out: &mut Vec<Diagnostic>)
    ensures
        final(out)@ == old(out)@ + errors_in_forest(forest_model(nodes@)),
    decreases nodes, 0nat,
{
    let ghost model = forest_model(nodes@);
    let mut i: usize = 0;
    proof {
        assert(out@ =~= old(out)@ + errors_in_forest(model.take(0)));
    }
    while i < nodes.len()
        invariant
            i <= nodes.len(),
            model == forest_model(nodes@),
            out@ == old(out)@ + errors_in_forest(model.take(i as int)),
        decreases nodes.len() - i,
    {
        let ghost before = out@;
        collect_errors(&nodes[i], out);
        proof {
            assert(model.take(i + 1).drop_last() =~= model.take(i as int));
            assert(model.take(i + 1).last() == node_model(nodes[i as int]));
            assert(out@ =~= old(out)@ + errors_in_forest(model.take(i + 1)));
        }
        i = i + 1;
    }
    proof {
        assert(model.take(nodes.len() as int) =~= model);
    }
}

/// The syntax errors that the tree is annotated with, in source order.
pub fn syntax_errors(tree: &SyntaxTree) -> (out: Vec<Diagnostic>)
    ensures
        out@ == errors_in_forest(forest_model(tree.roots@)),
{
    let mut out: Vec<Diagnostic> = Vec::new();
    collect_all_errors(&tree.roots, &mut out);
    assert(out@ =~= errors_in_forest(forest_model(tree.roots@)));
    out
}

} // verus!
