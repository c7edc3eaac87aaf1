//! How the nodes that the Rust adapter yields are laid out: siblings stand in source
//! order without overlap, children stand strictly inside their parent, and only
//! declarations that open a scope have children.

use vstd::prelude::*;
use crate::span::Span;
use crate::syntax::rust::{
    attributes_end, cover, generics_end, header_parts, is_item_keyword, item_at, items_in,
    last_word, loose_item, modifiers_end, plain, rust_forest, variants_in,
};
use crate::syntax::scan::{Scan, lemma_scan, scan_from};
use crate::syntax::token::{
    BANG, BRACKET_OPEN, Keyword, PAREN_OPEN, POUND, SEMICOLON, Token, TokenKind,
    lemma_tokens_wf, lemma_words_plain, tokens_of, tokens_wf, word_span, words_plain,
};
use crate::syntax::tree::{NodeKind, NodeModel, forest_nested, laid_out, nested};

verus! {

proof fn lemma_attributes_end(t: Seq<Token>, p: int, end: int)
    requires
        0 <= p <= end,
    ensures
        p <= attributes_end(t, p, end) <= end,
    decreases end - p,
{
    if p < end && t[p].kind == TokenKind::Punct(POUND) {
        let q = if p + 1 < end && t[p + 1].kind == TokenKind::Punct(BANG) {
            p + 2
        } else {
            p + 1
        };
        if q < end && t[q].kind == TokenKind::Punct(BRACKET_OPEN) {
            lemma_scan(t, q + 1, end, Scan::Bracket, 0);
            let c = scan_from(t, q + 1, end, Scan::Bracket, 0);
            if p < c < end {
                lemma_attributes_end(t, c + 1, end);
            }
        }
    }
}

proof fn lemma_modifiers_end(t: Seq<Token>, p: int, end: int)
    requires
        0 <= p <= end,
    ensures
        p <= modifiers_end(t, p, end) <= end,
    decreases end - p,
{
    if p < end {
        if t[p].kind == TokenKind::Keyword(Keyword::Pub) {
            if p + 1 < end && t[p + 1].kind == TokenKind::Punct(PAREN_OPEN) {
                lemma_scan(t, p + 2, end, Scan::Paren, 0);
                let c = scan_from(t, p + 2, end, Scan::Paren, 0);
                if p < c < end {
                    lemma_modifiers_end(t, c + 1, end);
                }
            } else {
                lemma_modifiers_end(t, p + 1, end);
            }
        } else if t[p].kind == TokenKind::Keyword(Keyword::Async) || t[p].kind == TokenKind::Keyword(
            Keyword::Unsafe,
        ) || t[p].kind == TokenKind::Keyword(Keyword::Const) {
            lemma_modifiers_end(t, p + 1, end);
        } else if t[p].kind == TokenKind::Keyword(Keyword::Extern) {
            if p + 1 < end && t[p + 1].kind is Literal {
                lemma_modifiers_end(t, p + 2, end);
            } else {
                lemma_modifiers_end(t, p + 1, end);
            }
        }
    }
}

/// The tokens `[a, b)` cover a span that is not empty and lies between the start of
/// the first and the end of the last; a run of tokens inside another covers a span
/// inside the other's.
proof fn lemma_cover_inside(t: Seq<Token>, a: int, b: int, p: int, q: int, len: nat)
    requires
        tokens_wf(t, len),
        0 <= p <= a < b <= q <= t.len(),
    ensures
        cover(t, a, b).wf(),
        cover(t, p, q).start <= cover(t, a, b).start,
        cover(t, a, b).end <= cover(t, p, q).end,
        p < a ==> cover(t, p, q).start < cover(t, a, b).start,
        b < q ==> cover(t, a, b).end < cover(t, p, q).end,
{
    assert(t[a].span.wf());
    assert(t[b - 1].span.wf());
    assert(t[p].span.wf());
    assert(t[q - 1].span.wf());
    if a < b - 1 {
        assert(t[a].span.end <= t[b - 1].span.start);
    }
    if p < a {
        assert(t[p].span.end <= t[a].span.start);
    }
    if b < q {
        assert(t[b - 1].span.end <= t[q - 1].span.start);
    }
}

/// The nodes are laid out in order between token `p` and token `end - 1`.
pub open spec fn spread(nodes: Seq<NodeModel>, t: Seq<Token>, p: int, end: int) -> bool {
    nodes.len() > 0 ==> p < end && laid_out(
        nodes,
        t[p].span.start as int,
        t[end - 1].span.end as int,
    )
}

proof fn lemma_plain(kind: NodeKind, t: Seq<Token>, p: int, q: int, len: nat)
    requires
        tokens_wf(t, len),
        0 <= p < q <= t.len(),
    ensures
        nested(plain(kind, t, p, q)),
        plain(kind, t, p, q).info.span == cover(t, p, q),
{
    lemma_cover_inside(t, p, q, p, q, len);
}

proof fn lemma_loose(t: Seq<Token>, p: int, m: int, end: int, len: nat)
    requires
        tokens_wf(t, len),
        0 <= p <= m < end <= t.len(),
    ensures
        p < loose_item(t, p, m, end).1 <= end,
        loose_item(t, p, m, end).0.info.span == cover(t, p, loose_item(t, p, m, end).1),
        nested(loose_item(t, p, m, end).0),
{
    lemma_scan(t, m, end, Scan::Header, 0);
    let h = scan_from(t, m, end, Scan::Header, 0);
    lemma_plain(NodeKind::Error, t, p, end, len);
    if h < end {
        lemma_plain(NodeKind::Other, t, p, h + 1, len);
        lemma_scan(t, h + 1, end, Scan::Block, 0);
        let c = scan_from(t, h + 1, end, Scan::Block, 0);
        if c < end {
            lemma_plain(NodeKind::Other, t, p, c + 1, len);
        }
    }
}

proof fn lemma_prepend(node: NodeModel, rest: Seq<NodeModel>, lo: int, mid: int, hi: int)
    requires
        nested(node),
        lo <= node.info.span.start,
        node.info.span.end <= mid,
        forest_nested(rest),
        rest.len() > 0 ==> laid_out(rest, mid, hi),
        mid <= hi,
    ensures
        forest_nested(seq![node] + rest),
        laid_out(seq![node] + rest, lo, hi),
{
    let all = seq![node] + rest;
    assert forall|i: int| 0 <= i < all.len() implies nested(#[trigger] all[i]) by {
        if i > 0 {
            assert(all[i] == rest[i - 1]);
        }
    }
    assert forall|i: int| 0 <= i < all.len() implies lo <= (#[trigger] all[i]).info.span.start
        && all[i].info.span.end <= hi by {
        if i > 0 {
            assert(all[i] == rest[i - 1]);
        }
    }
    assert forall|i: int, j: int| 0 <= i < j < all.len() implies (#[trigger] all[i]).info.span.end <= (
    #[trigger] all[j]).info.span.start by {
        assert(all[j] == rest[j - 1]);
        if i > 0 {
            assert(all[i] == rest[i - 1]);
        }
    }
}

proof fn lemma_variants(t: Seq<Token>, p: int, end: int, len: nat)
    requires
        tokens_wf(t, len),
        0 <= p <= end <= t.len(),
    ensures
        forest_nested(variants_in(t, p, end)),
        spread(variants_in(t, p, end), t, p, end),
    decreases end - p,
{
    if p < end {
        let all = variants_in(t, p, end);
        lemma_attributes_end(t, p, end);
        let a = attributes_end(t, p, end);
        lemma_cover_inside(t, p, end, p, end, len);
        if a >= end {
            lemma_plain(NodeKind::Error, t, p, end, len);
            lemma_prepend(
                plain(NodeKind::Error, t, p, end),
                Seq::empty(),
                t[p].span.start as int,
                t[end - 1].span.end as int,
                t[end - 1].span.end as int,
            );
            assert(all =~= seq![plain(NodeKind::Error, t, p, end)] + Seq::<NodeModel>::empty());
        } else {
            // The node covers the tokens `[p, q)`; the next one begins at `next`.
            let word = t[a].kind is Word;
            let q = if word {
                scan_from(t, a + 1, end, Scan::Variant, 0)
            } else {
                a + 1
            };
            let next = if word && q < end {
                q + 1
            } else {
                q
            };
            let node = all[0];
            lemma_scan(t, a + 1, end, Scan::Variant, 0);
            lemma_plain(NodeKind::Error, t, p, a + 1, len);
            lemma_cover_inside(t, p, q, p, end, len);
            assert(node.info.span == cover(t, p, q));
            assert(nested(node));
            lemma_variants(t, next, end, len);
            let rest = variants_in(t, next, end);
            assert(all == seq![node] + rest);
            let mid = if next < end {
                t[next].span.start as int
            } else {
                t[end - 1].span.end as int
            };
            if next < end {
                assert(t[q - 1].span.end <= t[next].span.start);
                lemma_cover_inside(t, next, end, next, end, len);
            }
            lemma_prepend(node, rest, t[p].span.start as int, mid, t[end - 1].span.end as int);
        }
    }
}

proof fn lemma_item(t: Seq<Token>, p: int, end: int, inner: bool, len: nat)
    requires
        tokens_wf(t, len),
        0 <= p < end <= t.len(),
    ensures
        p < item_at(t, p, end, inner).1 <= end,
        item_at(t, p, end, inner).0.info.span == cover(t, p, item_at(t, p, end, inner).1),
        nested(item_at(t, p, end, inner).0),
    decreases end - p, 0nat,
{
    lemma_attributes_end(t, p, end);
    let a = attributes_end(t, p, end);
    lemma_modifiers_end(t, a, end);
    let m = modifiers_end(t, a, end);
    lemma_plain(NodeKind::Error, t, p, end, len);
    if m < end {
        lemma_loose(t, p, m, end, len);
        lemma_plain(NodeKind::Error, t, p, m + 1, len);
        match t[m].kind {
            TokenKind::Keyword(k) => {
                if is_item_keyword(k) {
                    lemma_scan(t, m + 1, end, Scan::Header, 0);
                    let h = scan_from(t, m + 1, end, Scan::Header, 0);
                    if h < end {
                        lemma_cover_inside(t, p, h + 1, p, h + 1, len);
                        if t[h].kind != TokenKind::Punct(SEMICOLON) {
                            lemma_scan(t, h + 1, end, Scan::Block, 0);
                            let c = scan_from(t, h + 1, end, Scan::Block, 0);
                            if c < end {
                                let (node, next) = item_at(t, p, end, inner);
                                lemma_cover_inside(t, p, c + 1, p, c + 1, len);
                                assert(node.info.span == cover(t, p, c + 1));
                                lemma_items(t, h + 1, c, false, len);
                                lemma_items(t, h + 1, c, true, len);
                                lemma_variants(t, h + 1, c, len);
                                if node.children.len() > 0 {
                                    lemma_cover_inside(t, h + 1, c, p, c + 1, len);
                                    assert(laid_out(
                                        node.children,
                                        t[h + 1].span.start as int,
                                        t[c - 1].span.end as int,
                                    ));
                                }
                                assert(nested(node));
                            }
                        }
                    }
                }
            },
            _ => {},
        }
    }
}

proof fn lemma_items(t: Seq<Token>, p: int, end: int, inner: bool, len: nat)
    requires
        tokens_wf(t, len),
        0 <= p <= end <= t.len(),
    ensures
        forest_nested(items_in(t, p, end, inner)),
        spread(items_in(t, p, end, inner), t, p, end),
    decreases end - p, 1nat,
{
    if p < end {
        let all = items_in(t, p, end, inner);
        let (node, next) = item_at(t, p, end, inner);
        lemma_item(t, p, end, inner, len);
        lemma_cover_inside(t, p, next, p, end, len);
        lemma_items(t, next, end, inner, len);
        let rest = items_in(t, next, end, inner);
        assert(all =~= seq![node] + rest);
        let mid = if next < end {
            t[next].span.start as int
        } else {
            t[end - 1].span.end as int
        };
        if next < end {
            assert(t[next - 1].span.end <= t[next].span.start);
            lemma_cover_inside(t, next, end, next, end, len);
        }
        lemma_prepend(node, rest, t[p].span.start as int, mid, t[end - 1].span.end as int);
    }
}

/// The nodes of parsed Rust-shaped text are laid out in source order inside the
/// text; each is nested.
pub proof fn lemma_rust_forest_nested(s: Seq<u8>)
    requires
        s.len() <= usize::MAX,
    ensures
        forest_nested(rust_forest(s)),
        laid_out(rust_forest(s), 0, s.len() as int),
{
    let t = tokens_of(s);
    lemma_tokens_wf(s);
    lemma_items(t, 0, t.len() as int, false, s.len());
    let roots = rust_forest(s);
    if roots.len() > 0 {
        assert(t[0].span.wf());
        assert(t[t.len() - 1].span.wf());
    }
}

/// The name of the node and the names of all nodes below it are made of word bytes.
pub open spec fn names_plain(s: Seq<u8>, n: NodeModel) -> bool
    decreases n,
{
    &&& word_span(s, n.info.name)
    &&& forall|i: int| 0 <= i < n.children.len() ==> names_plain(s, #[trigger] n.children[i])
}

pub open spec fn forest_names_plain(s: Seq<u8>, nodes: Seq<NodeModel>) -> bool {
    forall|i: int| 0 <= i < nodes.len() ==> names_plain(s, #[trigger] nodes[i])
}

proof fn lemma_last_word(
    t: Seq<Token>,
    from: int,
    to: int,
    depth: nat,
    best: Option<Span>,
    s: Seq<u8>,
)
    requires
        words_plain(t, s),
        0 <= from,
        to <= t.len(),
        match best {
            Some(b) => word_span(s, b),
            None => true,
        },
    ensures
        match last_word(t, from, to, depth, best) {
            Some(r) => word_span(s, r),
            None => true,
        },
    decreases to - from,
{
    if from < to {
        if t[from].kind == TokenKind::Punct(crate::syntax::token::ANGLE_OPEN) {
            lemma_last_word(t, from + 1, to, depth + 1, best, s);
        } else if t[from].kind == TokenKind::Punct(crate::syntax::token::ANGLE_CLOSE) {
            lemma_last_word(
                t,
                from + 1,
                to,
                if depth > 0 {
                    (depth - 1) as nat
                } else {
                    0
                },
                best,
                s,
            );
        } else if t[from].kind is Word && depth == 0 {
            lemma_last_word(t, from + 1, to, depth, Some(t[from].span), s);
        } else {
            lemma_last_word(t, from + 1, to, depth, best, s);
        }
    }
}

proof fn lemma_header_names(t: Seq<Token>, m: int, h: int, k: Keyword, s: Seq<u8>)
    requires
        words_plain(t, s),
        0 <= m < h <= t.len(),
    ensures
        match header_parts(t, m, h, k) {
            Some(parts) => word_span(s, parts.name),
            None => true,
        },
{
    if k is Impl {
        if m + 1 < h && t[m + 1].kind == TokenKind::Punct(crate::syntax::token::ANGLE_OPEN) {
            lemma_scan(t, m + 2, h, Scan::Angle, 0);
        }
        let g = generics_end(t, m, h);
        lemma_scan(t, g, h, Scan::Separator, 0);
        let f = scan_from(t, g, h, Scan::Separator, 0);
        lemma_last_word(t, g, f, 0, None, s);
        if f < h {
            lemma_scan(t, f + 1, h, Scan::Separator, 0);
            let w = scan_from(t, f + 1, h, Scan::Separator, 0);
            lemma_last_word(t, f + 1, w, 0, None, s);
        }
    }
}

proof fn lemma_variant_names(t: Seq<Token>, p: int, end: int, s: Seq<u8>)
    requires
        words_plain(t, s),
        0 <= p <= end <= t.len(),
    ensures
        forest_names_plain(s, variants_in(t, p, end)),
    decreases end - p,
{
    if p < end {
        let all = variants_in(t, p, end);
        lemma_attributes_end(t, p, end);
        let a = attributes_end(t, p, end);
        if a < end {
            lemma_scan(t, a + 1, end, Scan::Variant, 0);
            let v = scan_from(t, a + 1, end, Scan::Variant, 0);
            let next = if t[a].kind is Word {
                if v < end {
                    v + 1
                } else {
                    end
                }
            } else {
                a + 1
            };
            lemma_variant_names(t, next, end, s);
            let rest = variants_in(t, next, end);
            assert(all == seq![all[0]] + rest);
            assert forall|i: int| 0 <= i < all.len() implies names_plain(s, #[trigger] all[i]) by {
                if i > 0 {
                    assert(all[i] == rest[i - 1]);
                }
            }
        }
    }
}

proof fn lemma_item_names(t: Seq<Token>, p: int, end: int, inner: bool, s: Seq<u8>)
    requires
        words_plain(t, s),
        0 <= p < end <= t.len(),
    ensures
        names_plain(s, item_at(t, p, end, inner).0),
    decreases end - p, 0nat,
{
    lemma_attributes_end(t, p, end);
    let a = attributes_end(t, p, end);
    lemma_modifiers_end(t, a, end);
    let m = modifiers_end(t, a, end);
    if m < end {
        lemma_scan(t, m, end, Scan::Header, 0);
        let lh = scan_from(t, m, end, Scan::Header, 0);
        if lh < end {
            lemma_scan(t, lh + 1, end, Scan::Block, 0);
        }
        match t[m].kind {
            TokenKind::Keyword(k) => {
                if is_item_keyword(k) {
                    lemma_scan(t, m + 1, end, Scan::Header, 0);
                    let h = scan_from(t, m + 1, end, Scan::Header, 0);
                    if h < end {
                        lemma_header_names(t, m, h, k, s);
                        if t[h].kind != TokenKind::Punct(SEMICOLON) {
                            lemma_scan(t, h + 1, end, Scan::Block, 0);
                            let c = scan_from(t, h + 1, end, Scan::Block, 0);
                            if c < end {
                                lemma_item_list_names(t, h + 1, c, false, s);
                                lemma_item_list_names(t, h + 1, c, true, s);
                                lemma_variant_names(t, h + 1, c, s);
                            }
                        }
                    }
                }
            },
            _ => {},
        }
    }
}

proof fn lemma_item_list_names(t: Seq<Token>, p: int, end: int, inner: bool, s: Seq<u8>)
    requires
        words_plain(t, s),
        0 <= p <= end <= t.len(),
    ensures
        forest_names_plain(s, items_in(t, p, end, inner)),
    decreases end - p, 1nat,
{
    if p < end {
        let all = items_in(t, p, end, inner);
        let (node, next) = item_at(t, p, end, inner);
        lemma_item_names(t, p, end, inner, s);
        if p < next <= end {
            lemma_item_list_names(t, next, end, inner, s);
            let rest = items_in(t, next, end, inner);
            assert(all =~= seq![node] + rest);
            assert forall|i: int| 0 <= i < all.len() implies names_plain(s, #[trigger] all[i]) by {
                if i > 0 {
                    assert(all[i] == rest[i - 1]);
                }
            }
        }
    }
}

/// Every name in parsed Rust-shaped text is made of word bytes.
pub proof fn lemma_rust_forest_names(s: Seq<u8>)
    requires
        s.len() <= usize::MAX,
    ensures
        forest_names_plain(s, rust_forest(s)),
{
    let t = tokens_of(s);
    lemma_words_plain(s);
    lemma_item_list_names(t, 0, t.len() as int, false, s);
}

} // verus!
