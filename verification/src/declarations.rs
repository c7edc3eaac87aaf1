//! What holds of every table extracted from Rust-shaped source text.
//!
//! No loss, no duplication: every declaration that the adapter finds becomes exactly
//! one entity, in depth-first order, and the top-level entities of the table are
//! exactly the declarations at the top level of the source. Sibling entities do not
//! overlap. Identifiers are keys: entities with one identifier agree in qualified
//! path, name, kind and signature.

use vstd::prelude::*;
use crate::diagnostics::Diagnostic;
use crate::entity::{CandidateModel, EntityModel};
use crate::identity::{identified, lemma_identifier_is_a_key, plain_name, plain_path};
use crate::linker::edges::entity_at;
use crate::linker::nesting::{enclosing, parent_of, path_of};
use crate::linker::order::{arranged, arrangement, duplicates, is_duplicate};
use crate::pipeline::table_of;
use crate::reducer::{reduce_forest, reduce_node, text_of};
use crate::span::Span;
use crate::syntax::layout::{
    forest_names_plain, lemma_rust_forest_names, lemma_rust_forest_nested, names_plain,
};
use crate::syntax::token::word_span;
use crate::syntax::rust::rust_forest;
use crate::syntax::tree::{NodeModel, forest_nested, laid_out, nested};

verus! {

/// The candidates lie inside `[lo, hi)`, none is empty, and each begins after the
/// one before it.
pub open spec fn ascending_inside(c: Seq<CandidateModel>, lo: int, hi: int) -> bool {
    &&& forall|k: int|
        0 <= k < c.len() ==> lo <= (#[trigger] c[k]).span.start && c[k].span.end <= hi
            && c[k].span.wf()
    &&& forall|a: int, b: int|
        0 <= a < b < c.len() ==> (#[trigger] c[a]).span.start < (#[trigger] c[b]).span.start
    &&& forall|a: int, b: int|
        0 <= a < b < c.len() ==> (#[trigger] c[a]).span.end <= (#[trigger] c[b]).span.start || (
        c[a].kind.is_scope() && c[a].span.contains(c[b].span))
}

/// Number of entities among the first `n` that have no scope around them.
pub open spec fn count_top_level(e: Seq<CandidateModel>, n: nat) -> nat
    decreases n,
{
    if n == 0 {
        0
    } else {
        count_top_level(e, (n - 1) as nat) + if parent_of(e, n - 1) is None {
            1nat
        } else {
            0nat
        }
    }
}

/// Number of entities among the first `n` whose depth is zero.
pub open spec fn count_depth_zero(entities: Seq<EntityModel>, n: nat) -> nat
    decreases n,
{
    if n == 0 {
        0
    } else {
        count_depth_zero(entities, (n - 1) as nat) + if entities[n - 1].depth == 0 {
            1nat
        } else {
            0nat
        }
    }
}

/// Number of nodes that are declarations.
pub open spec fn count_declarations(nodes: Seq<NodeModel>) -> nat
    decreases nodes.len(),
{
    if nodes.len() == 0 {
        0
    } else {
        count_declarations(nodes.drop_last()) + if nodes.last().info.kind.entity_kind() is Some {
            1nat
        } else {
            0nat
        }
    }
}

proof fn lemma_reduce_node(source: Seq<u8>, n: NodeModel, depth: nat)
    requires
        nested(n),
    ensures
        ascending_inside(
            reduce_node(source, n, depth),
            n.info.span.start as int,
            n.info.span.end as int,
        ),
        match n.info.kind.entity_kind() {
            Some(k) => {
                &&& reduce_node(source, n, depth).len() >= 1
                &&& reduce_node(source, n, depth)[0].span == n.info.span
                &&& reduce_node(source, n, depth)[0].kind == k
                &&& reduce_node(source, n, depth).len() > 1 ==> k.is_scope()
            },
            None => reduce_node(source, n, depth).len() == 0,
        },
    decreases n, 1nat,
{
    let r = reduce_node(source, n, depth);
    let below = crate::reducer::reduce_forest(source, n.children, crate::reducer::deeper(depth));
    lemma_reduce_forest(
        source,
        n.children,
        crate::reducer::deeper(depth),
        n.info.span.start + 1,
        n.info.span.end as int,
    );
    match n.info.kind.entity_kind() {
        Some(k) => {
            assert(r[0].span == n.info.span);
            assert forall|j: int| 1 <= j < r.len() implies r[j] == below[j - 1] by {}
            assert forall|a: int, b: int| 0 <= a < b < r.len() implies (#[trigger] r[a]).span.start < (
            #[trigger] r[b]).span.start by {
                assert(r[b] == below[b - 1]);
                if a > 0 {
                    assert(r[a] == below[a - 1]);
                }
            }
            assert forall|j: int| 0 <= j < r.len() implies n.info.span.start <= (#[trigger] r[j]).span.start
                && r[j].span.end <= n.info.span.end && r[j].span.wf() by {
                if j > 0 {
                    assert(r[j] == below[j - 1]);
                }
            }
            if r.len() > 1 {
                lemma_empty_forest(source, n.children, crate::reducer::deeper(depth));
            }
            assert forall|a: int, b: int| 0 <= a < b < r.len() implies (#[trigger] r[a]).span.end <= (
            #[trigger] r[b]).span.start || (r[a].kind.is_scope() && r[a].span.contains(r[b].span)) by {
                assert(r[b] == below[b - 1]);
                if a > 0 {
                    assert(r[a] == below[a - 1]);
                }
            }
        },
        None => {
            lemma_empty_forest(source, n.children, crate::reducer::deeper(depth));
            assert(r =~= below);
        },
    }
}

/// No nodes, no candidates.
proof fn lemma_empty_forest(source: Seq<u8>, nodes: Seq<NodeModel>, depth: nat)
    ensures
        nodes.len() == 0 ==> reduce_forest(source, nodes, depth).len() == 0,
{
}

proof fn lemma_reduce_forest(source: Seq<u8>, nodes: Seq<NodeModel>, depth: nat, lo: int, hi: int)
    requires
        forest_nested(nodes),
        laid_out(nodes, lo, hi),
    ensures
        ascending_inside(reduce_forest(source, nodes, depth), lo, hi),
    decreases nodes, 0nat,
{
    if nodes.len() > 0 {
        let init = nodes.drop_last();
        let last = nodes.last();
        assert(last == nodes[nodes.len() - 1]);
        assert(nested(last));
        assert forall|i: int| 0 <= i < init.len() implies nested(#[trigger] init[i]) by {
            assert(init[i] == nodes[i]);
        }
        assert(laid_out(init, lo, last.info.span.start as int)) by {
            assert forall|i: int| 0 <= i < init.len() implies lo <= (#[trigger] init[i]).info.span.start
                && init[i].info.span.end <= last.info.span.start by {
                assert(init[i] == nodes[i]);
                assert(nodes[i].info.span.end <= nodes[nodes.len() - 1].info.span.start);
            }
            assert forall|i: int, j: int| 0 <= i < j < init.len() implies (#[trigger] init[i]).info.span.end <= (
            #[trigger] init[j]).info.span.start by {
                assert(init[i] == nodes[i] && init[j] == nodes[j]);
            }
        }
        lemma_reduce_forest(source, init, depth, lo, last.info.span.start as int);
        lemma_reduce_node(source, last, depth);
        let head = reduce_forest(source, init, depth);
        let tail = reduce_node(source, last, depth);
        let all = reduce_forest(source, nodes, depth);
        assert(all == head + tail);
        assert forall|k: int| 0 <= k < all.len() implies lo <= (#[trigger] all[k]).span.start
            && all[k].span.end <= hi && all[k].span.wf() by {
            if k < head.len() {
                assert(all[k] == head[k]);
            } else {
                assert(all[k] == tail[k - head.len()]);
            }
        }
        assert forall|a: int, b: int| 0 <= a < b < all.len() implies (#[trigger] all[a]).span.start < (
        #[trigger] all[b]).span.start by {
            if b < head.len() {
                assert(all[a] == head[a] && all[b] == head[b]);
            } else if a >= head.len() {
                assert(all[a] == tail[a - head.len()] && all[b] == tail[b - head.len()]);
            } else {
                assert(all[a] == head[a] && all[b] == tail[b - head.len()]);
            }
        }
        assert forall|a: int, b: int| 0 <= a < b < all.len() implies (#[trigger] all[a]).span.end <= (
        #[trigger] all[b]).span.start || (all[a].kind.is_scope() && all[a].span.contains(
            all[b].span,
        )) by {
            if b < head.len() {
                assert(all[a] == head[a] && all[b] == head[b]);
            } else if a >= head.len() {
                assert(all[a] == tail[a - head.len()] && all[b] == tail[b - head.len()]);
            } else {
                assert(all[a] == head[a] && all[b] == tail[b - head.len()]);
            }
        }
    }
}

/// Candidates that begin one after the other are no more than the bytes they begin
/// at.
proof fn lemma_ascending_len(c: Seq<CandidateModel>, lo: int, hi: int, k: int)
    requires
        ascending_inside(c, lo, hi),
        0 <= k < c.len(),
    ensures
        lo + k <= c[k].span.start,
        c.len() <= hi - lo || c.len() == 0,
    decreases c.len() - k,
{
    if k > 0 {
        lemma_ascending_start(c, lo, hi, k);
    }
    if k < c.len() - 1 {
        lemma_ascending_len(c, lo, hi, k + 1);
    } else {
        lemma_ascending_start(c, lo, hi, k);
        assert(c[k].span.wf());
    }
}

proof fn lemma_ascending_start(c: Seq<CandidateModel>, lo: int, hi: int, k: int)
    requires
        ascending_inside(c, lo, hi),
        0 <= k < c.len(),
    ensures
        lo + k <= c[k].span.start,
    decreases k,
{
    if k > 0 {
        lemma_ascending_start(c, lo, hi, k - 1);
        assert(c[k - 1].span.start < c[k].span.start);
    }
}

/// Candidates that begin one after the other are already in sweep order: arranging
/// them changes nothing and drops nothing.
proof fn lemma_ascending_arrangement(c: Seq<CandidateModel>, lo: int, hi: int, n: nat)
    requires
        ascending_inside(c, lo, hi),
        n <= c.len(),
        n <= usize::MAX,
    ensures
        arrangement(c, n) == Seq::new(n, |i: int| i as usize),
        duplicates(c, n) == Seq::<Diagnostic>::empty(),
    decreases n,
{
    if n > 0 {
        lemma_ascending_arrangement(c, lo, hi, (n - 1) as nat);
        let before = arrangement(c, (n - 1) as nat);
        if n > 1 {
            assert(before.last() == (n - 2) as usize);
            assert(c[n - 2].span.start < c[n - 1].span.start);
        }
        assert(arrangement(c, n) =~= Seq::new(n, |i: int| i as usize));
        if is_duplicate(c, n - 1) {
            let j = choose|j: int| 0 <= j < n - 1 && (#[trigger] c[j]).span == c[n - 1].span;
            assert(c[j].span.start < c[n - 1].span.start);
        }
    }
}

/// Whether a scope is found does not depend on what stands after the entity.
proof fn lemma_enclosing_prefix(e: Seq<CandidateModel>, r: Seq<CandidateModel>, i: int, j: int)
    requires
        0 <= i < e.len(),
        j < e.len(),
    ensures
        enclosing(e + r, i, j) == enclosing(e, i, j),
    decreases j + 1,
{
    if j >= 0 {
        assert((e + r)[j] == e[j]);
        assert((e + r)[i] == e[i]);
        lemma_enclosing_prefix(e, r, i, j - 1);
    }
}

proof fn lemma_count_prefix(e: Seq<CandidateModel>, r: Seq<CandidateModel>, n: nat)
    requires
        n <= e.len(),
    ensures
        count_top_level(e + r, n) == count_top_level(e, n),
    decreases n,
{
    if n > 0 {
        lemma_count_prefix(e, r, (n - 1) as nat);
        lemma_enclosing_prefix(e, r, n - 1, n - 2);
    }
}

/// `enclosing` finds nothing exactly when no scope at or before `j` covers the
/// entity.
proof fn lemma_enclosing_none(e: Seq<CandidateModel>, i: int, j: int)
    ensures
        enclosing(e, i, j) is None <==> forall|t: int|
            0 <= t <= j ==> !((#[trigger] e[t]).kind.is_scope() && e[t].span.contains(e[i].span)),
    decreases j + 1,
{
    if j >= 0 {
        lemma_enclosing_none(e, i, j - 1);
        if e[j].kind.is_scope() && e[j].span.contains(e[i].span) {
        } else {
            if enclosing(e, i, j - 1) is None {
                assert forall|t: int| 0 <= t <= j implies !((#[trigger] e[t]).kind.is_scope()
                    && e[t].span.contains(e[i].span)) by {}
            }
        }
    }
}

/// Of the candidates of one node, the node's own is the only one without a scope
/// around it, when those before the node all end before it begins.
proof fn lemma_count_node(all: Seq<CandidateModel>, a: int, m: nat)
    requires
        0 <= a,
        a + m <= all.len(),
        m > 0 ==> parent_of(all, a) is None,
        forall|x: int| a + 1 <= x < a + m ==> (#[trigger] parent_of(all, x)) is Some,
    ensures
        count_top_level(all, (a + m) as nat) == count_top_level(all, a as nat) + if m > 0 {
            1nat
        } else {
            0nat
        },
    decreases m,
{
    if m > 0 {
        lemma_count_node(all, a, (m - 1) as nat);
        if m > 1 {
            assert(parent_of(all, a + (m - 1)) is Some);
        }
    }
}

proof fn lemma_count_forest(source: Seq<u8>, nodes: Seq<NodeModel>, depth: nat, lo: int, hi: int)
    requires
        forest_nested(nodes),
        laid_out(nodes, lo, hi),
    ensures
        count_top_level(
            reduce_forest(source, nodes, depth),
            reduce_forest(source, nodes, depth).len(),
        ) == count_declarations(nodes),
    decreases nodes.len(),
{
    if nodes.len() > 0 {
        let init = nodes.drop_last();
        let last = nodes.last();
        assert(last == nodes[nodes.len() - 1]);
        assert(nested(last));
        assert forall|i: int| 0 <= i < init.len() implies nested(#[trigger] init[i]) by {
            assert(init[i] == nodes[i]);
        }
        assert(laid_out(init, lo, last.info.span.start as int)) by {
            assert forall|i: int| 0 <= i < init.len() implies lo <= (#[trigger] init[i]).info.span.start
                && init[i].info.span.end <= last.info.span.start by {
                assert(init[i] == nodes[i]);
                assert(nodes[i].info.span.end <= nodes[nodes.len() - 1].info.span.start);
            }
            assert forall|i: int, j: int| 0 <= i < j < init.len() implies (#[trigger] init[i]).info.span.end <= (
            #[trigger] init[j]).info.span.start by {
                assert(init[i] == nodes[i] && init[j] == nodes[j]);
            }
        }
        lemma_count_forest(source, init, depth, lo, last.info.span.start as int);
        lemma_reduce_forest(source, init, depth, lo, last.info.span.start as int);
        lemma_reduce_node(source, last, depth);
        let head = reduce_forest(source, init, depth);
        let tail = reduce_node(source, last, depth);
        let all = reduce_forest(source, nodes, depth);
        assert(all == head + tail);
        let a = head.len() as int;
        lemma_count_prefix(head, tail, head.len());
        if tail.len() > 0 {
            assert(all[a] == tail[0]);
            lemma_enclosing_none(all, a, a - 1);
            assert forall|t: int| 0 <= t <= a - 1 implies !((#[trigger] all[t]).kind.is_scope()
                && all[t].span.contains(all[a].span)) by {
                assert(all[t] == head[t]);
                assert(head[t].span.end <= last.info.span.start);
                assert(tail[0].span.wf());
            }
            assert forall|x: int| a + 1 <= x < a + tail.len() implies (#[trigger] parent_of(all, x)) is Some by {
                assert(all[x] == tail[x - a]);
                lemma_enclosing_none(all, x, x - 1);
                assert(all[a].kind.is_scope() && all[a].span.contains(all[x].span));
            }
        }
        lemma_count_node(all, a, tail.len());
    }
}

proof fn lemma_depth_zero(e: Seq<CandidateModel>, n: nat)
    requires
        n <= e.len(),
        e.len() <= usize::MAX,
    ensures
        count_depth_zero(Seq::new(e.len(), |i: int| identified(entity_at(e, i))), n) == count_top_level(
            e,
            n,
        ),
    decreases n,
{
    if n > 0 {
        lemma_depth_zero(e, (n - 1) as nat);
        lemma_enclosing_none(e, n - 1, n - 2);
        match parent_of(e, n - 1) {
            Some(p) => {
                if !(0 <= (p as int) < n - 1) {
                    lemma_enclosing_range(e, n - 1, n - 2);
                }
            },
            None => {},
        }
    }
}

/// What `enclosing` finds is a machine integer, hence not negative; where the list
/// is no longer than a machine integer counts, it stands at or before `j`.
proof fn lemma_enclosing_range(e: Seq<CandidateModel>, i: int, j: int)
    requires
        j < e.len(),
        e.len() <= usize::MAX,
    ensures
        match enclosing(e, i, j) {
            Some(p) => 0 <= (p as int) <= j,
            None => true,
        },
    decreases j + 1,
{
    if j >= 0 && !(e[j].kind.is_scope() && e[j].span.contains(e[i].span)) {
        lemma_enclosing_range(e, i, j - 1);
    }
}

/// Top-level declarations are neither lost nor duplicated. For Rust-shaped source
/// text of any content: the candidates come out of the reducer already in sweep
/// order, none is a duplicate and none is dropped, so the table holds one entity for
/// each declaration node; and the entities of depth zero are exactly as many as the
/// declarations at the top level of the source.
pub proof fn lemma_declarations_kept(source: Seq<u8>)
    requires
        source.len() <= usize::MAX,
    ensures
        ({
            let roots = rust_forest(source);
            let c = reduce_forest(source, roots, 0);
            let table = table_of(source, roots);
            &&& c.len() <= source.len()
            &&& arranged(c) == c
            &&& duplicates(c, c.len()) == Seq::<Diagnostic>::empty()
            &&& table.entities.len() == c.len()
            &&& count_depth_zero(table.entities, table.entities.len()) == count_declarations(roots)
            &&& forall|i: int|
                0 <= i < table.entities.len() ==> (#[trigger] table.entities[i]).span.wf()
                    && table.entities[i].span.end <= source.len()
        }),
{
    let roots = rust_forest(source);
    let c = reduce_forest(source, roots, 0);
    lemma_rust_forest_nested(source);
    lemma_reduce_forest(source, roots, 0, 0, source.len() as int);
    if c.len() > 0 {
        lemma_ascending_len(c, 0, source.len() as int, 0);
    }
    lemma_ascending_arrangement(c, 0, source.len() as int, c.len());
    assert(arranged(c) =~= c);
    lemma_count_forest(source, roots, 0, 0, source.len() as int);
    lemma_depth_zero(c, c.len());
}

/// Sibling entities do not overlap. For Rust-shaped source text of any content,
/// two entities with the same scope around them, or both with none, stand one after
/// the other: the earlier ends before the later begins.
pub proof fn lemma_siblings_do_not_overlap(source: Seq<u8>, i: int, j: int)
    requires
        source.len() <= usize::MAX,
        0 <= i < j < arranged(reduce_forest(source, rust_forest(source), 0)).len(),
        parent_of(arranged(reduce_forest(source, rust_forest(source), 0)), i) == parent_of(
            arranged(reduce_forest(source, rust_forest(source), 0)),
            j,
        ),
    ensures
        arranged(reduce_forest(source, rust_forest(source), 0))[i].span.end <= arranged(
            reduce_forest(source, rust_forest(source), 0),
        )[j].span.start,
{
    let roots = rust_forest(source);
    let c = reduce_forest(source, roots, 0);
    lemma_declarations_kept(source);
    lemma_rust_forest_nested(source);
    lemma_reduce_forest(source, roots, 0, 0, source.len() as int);
    if !(c[i].span.end <= c[j].span.start) {
        assert(c[i].kind.is_scope() && c[i].span.contains(c[j].span));
        lemma_enclosing_range(c, j, j - 1);
        lemma_enclosing_range(c, i, i - 1);
        crate::linker::nesting::lemma_enclosing_found(c, j, j - 1);
    }
}

/// Text made of word bytes holds neither `#` nor `:`.
proof fn lemma_word_is_plain(s: Seq<u8>, span: Span)
    requires
        word_span(s, span),
    ensures
        plain_name(text_of(s, span)),
{
    assert forall|i: int| 0 <= i < text_of(s, span).len() implies text_of(s, span)[i]
        != crate::identity::HASH && text_of(s, span)[i] != crate::identity::COLON by {
        assert(text_of(s, span)[i] == s[span.start + i]);
    }
}

/// Every candidate has a plain name.
pub open spec fn plain_names(c: Seq<CandidateModel>) -> bool {
    forall|k: int| 0 <= k < c.len() ==> plain_name((#[trigger] c[k]).name)
}

proof fn lemma_node_names(source: Seq<u8>, n: NodeModel, depth: nat)
    requires
        names_plain(source, n),
    ensures
        plain_names(reduce_node(source, n, depth)),
    decreases n, 1nat,
{
    let r = reduce_node(source, n, depth);
    let below = reduce_forest(source, n.children, crate::reducer::deeper(depth));
    lemma_forest_names(source, n.children, crate::reducer::deeper(depth));
    lemma_word_is_plain(source, n.info.name);
    assert forall|k: int| 0 <= k < r.len() implies plain_name((#[trigger] r[k]).name) by {
        match n.info.kind.entity_kind() {
            Some(kind) => {
                if k > 0 {
                    assert(r[k] == below[k - 1]);
                }
            },
            None => {
                assert(r[k] == below[k]);
            },
        }
    }
}

proof fn lemma_forest_names(source: Seq<u8>, nodes: Seq<NodeModel>, depth: nat)
    requires
        forest_names_plain(source, nodes),
    ensures
        plain_names(reduce_forest(source, nodes, depth)),
    decreases nodes, 0nat,
{
    if nodes.len() > 0 {
        let init = nodes.drop_last();
        assert forall|i: int| 0 <= i < init.len() implies names_plain(source, #[trigger] init[i]) by {
            assert(init[i] == nodes[i]);
        }
        assert(names_plain(source, nodes[nodes.len() - 1]));
        lemma_forest_names(source, init, depth);
        lemma_node_names(source, nodes.last(), depth);
        let head = reduce_forest(source, init, depth);
        let tail = reduce_node(source, nodes.last(), depth);
        let all = reduce_forest(source, nodes, depth);
        assert forall|k: int| 0 <= k < all.len() implies plain_name((#[trigger] all[k]).name) by {
            if k < head.len() {
                assert(all[k] == head[k]);
            } else {
                assert(all[k] == tail[k - head.len()]);
            }
        }
    }
}

proof fn lemma_path_plain(e: Seq<CandidateModel>, i: int)
    requires
        plain_names(e),
        0 <= i < e.len(),
    ensures
        plain_path(path_of(e, i)),
    decreases i,
{
    match parent_of(e, i) {
        Some(p) => {
            if 0 <= (p as int) < i {
                lemma_path_plain(e, p as int);
                let path = path_of(e, i);
                let above = path_of(e, p as int);
                assert forall|k: int| 0 <= k < path.len() implies plain_name(#[trigger] path[k]) by {
                    if k < above.len() {
                        assert(path[k] == above[k]);
                    } else {
                        assert(path[k] == e[p as int].name);
                    }
                }
            }
        },
        None => {},
    }
}

/// Identifiers are keys. For Rust-shaped source text of any content, two entities
/// of the table have the same identifier only if they have the same qualified path,
/// the same name, the same kind and the same signature.
pub proof fn lemma_identifiers_are_keys(source: Seq<u8>, i: int, j: int)
    requires
        source.len() <= usize::MAX,
        0 <= i < table_of(source, rust_forest(source)).entities.len(),
        0 <= j < table_of(source, rust_forest(source)).entities.len(),
        table_of(source, rust_forest(source)).entities[i].identifier == table_of(
            source,
            rust_forest(source),
        ).entities[j].identifier,
    ensures
        ({
            let entities = table_of(source, rust_forest(source)).entities;
            &&& entities[i].qualified_path == entities[j].qualified_path
            &&& entities[i].name == entities[j].name
            &&& entities[i].kind == entities[j].kind
            &&& entities[i].signature == entities[j].signature
        }),
{
    let roots = rust_forest(source);
    let c = reduce_forest(source, roots, 0);
    lemma_declarations_kept(source);
    lemma_rust_forest_names(source);
    lemma_forest_names(source, roots, 0);
    lemma_path_plain(c, i);
    lemma_path_plain(c, j);
    lemma_identifier_is_a_key(entity_at(c, i), entity_at(c, j));
}

} // verus!
