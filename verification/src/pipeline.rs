//! The extraction pipeline: source text and language tag in, symbol table and
//! diagnostics out. Each stage is a pure function of the one before, so the result
//! is a function of the input alone.

use vstd::prelude::*;
use crate::diagnostics::{Diagnostic, ExtractError};
use crate::entity::{entity_models};
use crate::identity::{assign, identified};
use crate::linker::edges::{edges_upto, entities_of, entity_at, lemma_edges_in_range, unresolved_upto};
use crate::linker::nesting::lemma_arranged_swept;
use crate::linker::properties::{contains_walk, lemma_contains_has_no_cycle};
use crate::linker::order::{arranged, duplicates};
use crate::linker::{Linked, link};
use crate::reducer::{reduce, reduce_forest};
use crate::syntax::tree::{NodeModel, SyntaxTree, forest_model};
use crate::syntax::{Language, errors_in_forest, parse, parsed, syntax_errors};
use crate::table::{SymbolTable, TableModel, serialized};

verus! {

/// What an extraction returns: the symbol table, and beside it the recoverable
/// conditions met on the way.
#[derive(Debug)]
pub struct Extraction {
    pub table: SymbolTable,
    /// Syntax errors in source order, then dropped duplicates, then unresolved
    /// implementations.
    pub diagnostics: Vec<Diagnostic>,
}

impl Extraction {
    pub open spec fn model(&self) -> (TableModel, Seq<Diagnostic>) {
        (self.table@, self.diagnostics@)
    }
}

/// The symbol table of a unit with source `source` and top-level nodes `roots`.
pub open spec fn table_of(source: Seq<u8>, roots: Seq<NodeModel>) -> TableModel {
    let e = arranged(reduce_forest(source, roots, 0));
    TableModel {
        entities: Seq::new(e.len(), |i: int| identified(entity_at(e, i))),
        edges: edges_upto(e, e.len()),
    }
}

/// The diagnostics of a unit with source `source` and top-level nodes `roots`.
pub open spec fn diagnostics_of(source: Seq<u8>, roots: Seq<NodeModel>) -> Seq<Diagnostic> {
    let c = reduce_forest(source, roots, 0);
    let e = arranged(c);
    errors_in_forest(roots) + (duplicates(c, c.len()) + unresolved_upto(e, e.len()))
}

/// What extracting `source` as `language` gives.
pub open spec fn extraction_of(source: Seq<u8>, language: Language) -> Result<
    (TableModel, Seq<Diagnostic>),
    ExtractError,
> {
    match parsed(source, language) {
        Ok(roots) => Ok((table_of(source, roots), diagnostics_of(source, roots))),
        Err(e) => Err(e),
    }
}

fn append_diagnostics(out: &mut Vec<Diagnostic>, tail: &Vec<Diagnostic>)
    ensures
        final(out)@ == old(out)@ + tail@,
{
    let mut i: usize = 0;
    while i < tail.len()
        invariant
            i <= tail.len(),
            out@ == old(out)@ + tail@.subrange(0, i as int),
        decreases tail.len() - i,
    {
        out.push(tail[i]);
        i = i + 1;
        assert(out@ =~= old(out)@ + tail@.subrange(0, i as int));
    }
    assert(tail@.subrange(0, tail.len() as int) =~= tail@);
}

/// Runs the stages after parsing: reduce, link, assign identities, build the table.
pub fn extract_tree(tree: &SyntaxTree) -> (x: Extraction)
    requires
        tree.wf(),
    ensures
        x.model() == (
            table_of(tree.source@, forest_model(tree.roots@)),
            diagnostics_of(tree.source@, forest_model(tree.roots@)),
        ),
{
    let candidates = reduce(tree);
    let ghost c = reduce_forest(tree.source@, forest_model(tree.roots@), 0);
    let ghost e = arranged(c);
    let linked = link(&candidates);
    let entities = assign(&linked.entities);
    let mut diagnostics = syntax_errors(tree);
    append_diagnostics(&mut diagnostics, &linked.diagnostics);
    let Linked { entities: _, edges, diagnostics: _ } = linked;
    proof {
        lemma_arranged_swept(c);
        lemma_edges_in_range(e, e.len());
        assert(entity_models(entities@) =~= Seq::new(e.len(), |i: int| identified(entity_at(e, i)))) by {
            assert(entity_models(linked.entities@).len() == e.len());
            assert forall|i: int| 0 <= i < e.len() implies entity_models(entities@)[i] == identified(
                entity_at(e, i),
            ) by {
                assert(entity_models(linked.entities@)[i] == entities_of(e)[i]);
            }
        }
    }
    match SymbolTable::build(entities, edges) {
        Some(table) => Extraction { table, diagnostics },
        None => vstd::pervasive::unreached(),
    }
}

/// Extracts the symbol table of one source unit.
///
/// Fails when no adapter is registered for `language`, or when nothing at the top
/// level of `source` is a declaration and something there is a syntax error.
/// Otherwise returns the table and the diagnostics; what they hold is a function of
/// `source` and `language` alone.
pub fn extract(source: &[u8], language: Language) -> (r: Result<Extraction, ExtractError>)
    ensures
        match r {
            Ok(x) => extraction_of(source@, language) == Ok::<
                (TableModel, Seq<Diagnostic>),
                ExtractError,
            >(x.model()),
            Err(e) => extraction_of(source@, language) == Err::<
                (TableModel, Seq<Diagnostic>),
                ExtractError,
            >(e),
        },
{
    match parse(source, language) {
        Ok(tree) => Ok(extract_tree(&tree)),
        Err(e) => Err(e),
    }
}

/// Extraction is deterministic: two extractions of the same source in the same
/// language hold equal tables, serialize to the same bytes, and report the same
/// diagnostics.
pub proof fn lemma_extraction_is_deterministic(
    source: Seq<u8>,
    language: Language,
    first: Extraction,
    second: Extraction,
)
    requires
        extraction_of(source, language) == Ok::<(TableModel, Seq<Diagnostic>), ExtractError>(
            first.model(),
        ),
        extraction_of(source, language) == Ok::<(TableModel, Seq<Diagnostic>), ExtractError>(
            second.model(),
        ),
    ensures
        first.table@ == second.table@,
        serialized(first.table@) == serialized(second.table@),
        first.diagnostics@ == second.diagnostics@,
{
}

/// In every extracted table the `Contains` edges have no cycle: no entity is
/// reached from itself by following them.
pub proof fn lemma_table_contains_no_cycle(
    source: Seq<u8>,
    language: Language,
    x: Extraction,
    walk: Seq<usize>,
)
    requires
        extraction_of(source, language) == Ok::<(TableModel, Seq<Diagnostic>), ExtractError>(
            x.model(),
        ),
        contains_walk(x.table@.edges, walk),
    ensures
        walk.first() != walk.last(),
{
    x.table.lemma_bounded();
    match parsed(source, language) {
        Ok(roots) => {
            let e = arranged(reduce_forest(source, roots, 0));
            assert(x.table@.entities.len() == e.len());
            lemma_contains_has_no_cycle(e, walk);
        },
        Err(_) => {},
    }
}

} // verus!
