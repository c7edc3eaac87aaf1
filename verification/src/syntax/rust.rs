//! The adapter for Rust-shaped source.
//!
//! The grammar is tolerant. An item is a run of attributes and modifiers, then
//! `struct`, `enum`, `trait`, `impl`, `fn` or `mod` with a header that ends in `;`
//! or in a block. Anything else that ends in `;` or in a block is carried as a
//! node of kind `Other`; what is not delimited at all becomes a node of kind
//! `Error` and the items around it are parsed as usual.
//!
//! The fields of a struct and the bodies of functions are not looked into: they
//! belong to the declaration that holds them. A function signature without a body
//! is a node of kind `Prototype`, which is no entity: what a trait requires is part
//! of the trait.

use vstd::prelude::*;
use crate::entity::Modifiers;
use crate::span::Span;
use crate::syntax::scan::{Scan, scan, scan_from};
use crate::syntax::token::{
    ANGLE_CLOSE, ANGLE_OPEN, BANG, BRACE_CLOSE, BRACKET_OPEN, Keyword, PAREN_OPEN, POUND,
    SEMICOLON, Token, TokenKind, tokenize, tokens_of, tokens_wf,
};
use crate::syntax::tree::{
    NodeInfo, NodeKind, NodeModel, SyntaxNode, forest_model, forest_wf, info_wf,
    lemma_children_model, node_model, node_wf,
};

verus! {

/// The span from the start of token `p` to the end of token `q - 1`.
pub open spec fn cover(t: Seq<Token>, p: int, q: int) -> Span {
    Span { start: t[p].span.start, end: t[q - 1].span.end }
}

/// The empty span that stands for "not there".
pub open spec fn nowhere() -> Span {
    Span { start: 0, end: 0 }
}

pub open spec fn plain_info(kind: NodeKind, t: Seq<Token>, p: int, q: int) -> NodeInfo {
    NodeInfo {
        kind,
        span: cover(t, p, q),
        name: nowhere(),
        header: nowhere(),
        modifiers: Modifiers::empty(),
        target: nowhere(),
        interface: None,
    }
}

/// A node over the tokens `[p, q)` that says nothing but its kind and span.
pub open spec fn plain(kind: NodeKind, t: Seq<Token>, p: int, q: int) -> NodeModel {
    NodeModel { info: plain_info(kind, t, p, q), children: Seq::empty() }
}

/// One of the tokens `[from, to)` is the keyword `k`.
pub open spec fn has_keyword(t: Seq<Token>, from: int, to: int, k: Keyword) -> bool
    decreases to - from,
{
    if from >= to {
        false
    } else {
        t[to - 1].kind == TokenKind::Keyword(k) || has_keyword(t, from, to - 1, k)
    }
}

/// Where the attributes that begin at `p` end: each is `#` or `#!` and a bracketed
/// group. An attribute that is not closed runs to `end`.
pub open spec fn attributes_end(t: Seq<Token>, p: int, end: int) -> int
    decreases end - p,
{
    if 0 <= p < end && t[p].kind == TokenKind::Punct(POUND) {
        let q = if p + 1 < end && t[p + 1].kind == TokenKind::Punct(BANG) {
            p + 2
        } else {
            p + 1
        };
        if q < end && t[q].kind == TokenKind::Punct(BRACKET_OPEN) {
            let c = scan_from(t, q + 1, end, Scan::Bracket, 0);
            if p < c < end {
                attributes_end(t, c + 1, end)
            } else {
                end
            }
        } else {
            p
        }
    } else {
        p
    }
}

/// Where the modifiers that begin at `p` end: `pub` with or without a group in
/// parentheses, `async`, `unsafe`, `const`, and `extern` with or without a literal.
pub open spec fn modifiers_end(t: Seq<Token>, p: int, end: int) -> int
    decreases end - p,
{
    if p < 0 || p >= end {
        p
    } else if t[p].kind == TokenKind::Keyword(Keyword::Pub) {
        if p + 1 < end && t[p + 1].kind == TokenKind::Punct(PAREN_OPEN) {
            let c = scan_from(t, p + 2, end, Scan::Paren, 0);
            if p < c < end {
                modifiers_end(t, c + 1, end)
            } else {
                end
            }
        } else {
            modifiers_end(t, p + 1, end)
        }
    } else if t[p].kind == TokenKind::Keyword(Keyword::Async) || t[p].kind == TokenKind::Keyword(
        Keyword::Unsafe,
    ) || t[p].kind == TokenKind::Keyword(Keyword::Const) {
        modifiers_end(t, p + 1, end)
    } else if t[p].kind == TokenKind::Keyword(Keyword::Extern) {
        if p + 1 < end && t[p + 1].kind is Literal {
            modifiers_end(t, p + 2, end)
        } else {
            modifiers_end(t, p + 1, end)
        }
    } else {
        p
    }
}

pub open spec fn is_item_keyword(k: Keyword) -> bool {
    k is Struct || k is Enum || k is Trait || k is Impl || k is Fn || k is Mod
}

/// The kind of a named declaration that has a block.
pub open spec fn body_kind(k: Keyword) -> NodeKind {
    match k {
        Keyword::Struct => NodeKind::Type,
        Keyword::Enum => NodeKind::Enum,
        Keyword::Trait => NodeKind::Trait,
        Keyword::Impl => NodeKind::Implementation,
        Keyword::Fn => NodeKind::Function,
        Keyword::Mod => NodeKind::Module,
        _ => NodeKind::Other,
    }
}

/// The kind of a named declaration that ends in `;`.
pub open spec fn bodiless_kind(k: Keyword) -> NodeKind {
    match k {
        Keyword::Struct => NodeKind::Type,
        Keyword::Fn => NodeKind::Prototype,
        Keyword::Mod => NodeKind::Other,
        Keyword::Enum => NodeKind::Error,
        Keyword::Trait => NodeKind::Error,
        Keyword::Impl => NodeKind::Error,
        _ => NodeKind::Other,
    }
}

/// The span of the last word among the tokens `[from, to)` that stands outside
/// angle brackets; `best` when there is none.
pub open spec fn last_word(t: Seq<Token>, from: int, to: int, depth: nat, best: Option<Span>) -> Option<
    Span,
>
    decreases to - from,
{
    if from >= to {
        best
    } else if t[from].kind == TokenKind::Punct(ANGLE_OPEN) {
        last_word(t, from + 1, to, depth + 1, best)
    } else if t[from].kind == TokenKind::Punct(ANGLE_CLOSE) {
        last_word(
            t,
            from + 1,
            to,
            if depth > 0 {
                (depth - 1) as nat
            } else {
                0
            },
            best,
        )
    } else if t[from].kind is Word && depth == 0 {
        last_word(t, from + 1, to, depth, Some(t[from].span))
    } else {
        last_word(t, from + 1, to, depth, best)
    }
}

/// What a header names.
#[derive(Clone, Copy, Debug)]
pub struct HeaderParts {
    pub name: Span,
    pub target: Span,
    pub interface: Option<Span>,
}

/// Where the generic parameters that follow the keyword at `m` end.
pub open spec fn generics_end(t: Seq<Token>, m: int, h: int) -> int {
    if m + 1 < h && t[m + 1].kind == TokenKind::Punct(ANGLE_OPEN) {
        let c = scan_from(t, m + 2, h, Scan::Angle, 0);
        if c < h {
            c + 1
        } else {
            h
        }
    } else {
        m + 1
    }
}

/// What the header `[m, h)` that begins with keyword `k` names, or `None` when it
/// names nothing. An implementation is named after its type: the last word after
/// `for`, or without `for` the last word of the header; with `for`, the last word
/// before it is the trait. Any other declaration is named by the word after its
/// keyword.
pub open spec fn header_parts(t: Seq<Token>, m: int, h: int, k: Keyword) -> Option<HeaderParts> {
    if k is Impl {
        let g = generics_end(t, m, h);
        let f = scan_from(t, g, h, Scan::Separator, 0);
        if f < h && t[f].kind == TokenKind::Keyword(Keyword::For) {
            let w = scan_from(t, f + 1, h, Scan::Separator, 0);
            match last_word(t, f + 1, w, 0, None) {
                Some(target) => Some(
                    HeaderParts { name: target, target, interface: last_word(t, g, f, 0, None) },
                ),
                None => None,
            }
        } else {
            match last_word(t, g, f, 0, None) {
                Some(target) => Some(HeaderParts { name: target, target, interface: None }),
                None => None,
            }
        }
    } else if m + 1 < h && t[m + 1].kind is Word {
        Some(HeaderParts { name: t[m + 1].span, target: nowhere(), interface: None })
    } else {
        None
    }
}

/// The modifiers of the item whose modifiers stand in `[a, m)` and whose header is
/// `[m, h)`. A function has a receiver when its first parameter holds `self`; the
/// receiver is mutable when that parameter also holds `mut`; a function inside a
/// trait or an implementation that has no receiver is static.
pub open spec fn item_modifiers(t: Seq<Token>, a: int, m: int, h: int, k: Keyword, inner: bool) -> Modifiers {
    let o = scan_from(t, m + 1, h, Scan::ParamList, 0);
    let r = scan_from(t, o + 1, h, Scan::Receiver, 0);
    let has_self = k is Fn && o < h && has_keyword(t, o + 1, r, Keyword::SelfValue);
    Modifiers {
        public: has_keyword(t, a, m, Keyword::Pub),
        is_async: has_keyword(t, a, m, Keyword::Async),
        mutable_self: has_self && has_keyword(t, o + 1, r, Keyword::Mut),
        is_static: k is Fn && inner && !has_self,
    }
}

/// What the node of the item `[p, q)` says, whose modifiers begin at `a`, whose
/// keyword `k` stands at `m` and whose header ends at `h`. `kind` is what the item
/// is when its header names something; when it names nothing the item is an error.
pub open spec fn node_info(
    t: Seq<Token>,
    p: int,
    a: int,
    m: int,
    h: int,
    q: int,
    kind: NodeKind,
    k: Keyword,
    inner: bool,
) -> NodeInfo {
    match header_parts(t, m, h, k) {
        None => plain_info(NodeKind::Error, t, p, q),
        Some(parts) => if kind is Error || kind is Other {
            plain_info(kind, t, p, q)
        } else {
            NodeInfo {
                kind,
                span: cover(t, p, q),
                name: parts.name,
                header: cover(t, m, h),
                modifiers: item_modifiers(t, a, m, h, k, inner),
                target: parts.target,
                interface: parts.interface,
            }
        },
    }
}

/// The node of whatever begins at `m` and is no declaration: up to the first `;`,
/// or through the first block. What is delimited by neither is an error that runs
/// to `end`.
pub open spec fn loose_item(t: Seq<Token>, p: int, m: int, end: int) -> (NodeModel, int) {
    let h = scan_from(t, m, end, Scan::Header, 0);
    if h < m || h >= end {
        (plain(NodeKind::Error, t, p, end), end)
    } else if t[h].kind == TokenKind::Punct(SEMICOLON) {
        (plain(NodeKind::Other, t, p, h + 1), h + 1)
    } else {
        let c = scan_from(t, h + 1, end, Scan::Block, 0);
        if c <= h || c >= end {
            (plain(NodeKind::Error, t, p, end), end)
        } else {
            (plain(NodeKind::Other, t, p, c + 1), c + 1)
        }
    }
}

/// The variants of an enum whose body is the tokens `[p, end)`: each a word and
/// whatever follows it up to the next `,` outside brackets.
pub open spec fn variants_in(t: Seq<Token>, p: int, end: int) -> Seq<NodeModel>
    decreases end - p,
{
    if p < 0 || p >= end {
        Seq::empty()
    } else {
        let a = attributes_end(t, p, end);
        if a < p || a >= end {
            seq![plain(NodeKind::Error, t, p, end)]
        } else if t[a].kind is Word {
            let v = scan_from(t, a + 1, end, Scan::Variant, 0);
            if v <= a || v > end {
                Seq::empty()
            } else {
                let node = NodeModel {
                    info: NodeInfo {
                        kind: NodeKind::EnumVariant,
                        span: cover(t, p, v),
                        name: t[a].span,
                        header: cover(t, a, v),
                        modifiers: Modifiers::empty(),
                        target: nowhere(),
                        interface: None,
                    },
                    children: Seq::empty(),
                };
                seq![node] + variants_in(
                    t,
                    if v < end {
                        v + 1
                    } else {
                        end
                    },
                    end,
                )
            }
        } else {
            seq![plain(NodeKind::Error, t, p, a + 1)] + variants_in(t, a + 1, end)
        }
    }
}

/// The item that begins at token `p`, and where the next one begins. `inner` says
/// that the item stands in the body of a trait or an implementation.
pub open spec fn item_at(t: Seq<Token>, p: int, end: int, inner: bool) -> (NodeModel, int)
    decreases end - p, 0nat,
{
    let a = attributes_end(t, p, end);
    let m = modifiers_end(t, a, end);
    if a < p || m < a || m >= end {
        (plain(NodeKind::Error, t, p, end), end)
    } else {
        match t[m].kind {
            TokenKind::Keyword(k) => if is_item_keyword(k) {
                let h = scan_from(t, m + 1, end, Scan::Header, 0);
                if h <= m || h >= end {
                    (plain(NodeKind::Error, t, p, end), end)
                } else if t[h].kind == TokenKind::Punct(SEMICOLON) {
                    (
                        NodeModel {
                            info: node_info(t, p, a, m, h, h + 1, bodiless_kind(k), k, inner),
                            children: Seq::empty(),
                        },
                        h + 1,
                    )
                } else {
                    let c = scan_from(t, h + 1, end, Scan::Block, 0);
                    if c <= h || c >= end {
                        (plain(NodeKind::Error, t, p, end), end)
                    } else {
                        let info = node_info(t, p, a, m, h, c + 1, body_kind(k), k, inner);
                        let children = match info.kind {
                            NodeKind::Module => items_in(t, h + 1, c, false),
                            NodeKind::Trait => items_in(t, h + 1, c, true),
                            NodeKind::Implementation => items_in(t, h + 1, c, true),
                            NodeKind::Enum => variants_in(t, h + 1, c),
                            _ => Seq::empty(),
                        };
                        (NodeModel { info, children }, c + 1)
                    }
                }
            } else {
                loose_item(t, p, m, end)
            },
            TokenKind::Punct(b) => if b == BRACE_CLOSE {
                (plain(NodeKind::Error, t, p, m + 1), m + 1)
            } else {
                loose_item(t, p, m, end)
            },
            _ => loose_item(t, p, m, end),
        }
    }
}

/// The items among the tokens `[p, end)`.
pub open spec fn items_in(t: Seq<Token>, p: int, end: int, inner: bool) -> Seq<NodeModel>
    decreases end - p, 1nat,
{
    if p < 0 || p >= end {
        Seq::empty()
    } else {
        let (node, next) = item_at(t, p, end, inner);
        if next <= p || next > end {
            seq![node]
        } else {
            seq![node] + items_in(t, next, end, inner)
        }
    }
}

/// The top-level nodes of Rust-shaped source text.
pub open spec fn rust_forest(s: Seq<u8>) -> Seq<NodeModel> {
    let t = tokens_of(s);
    items_in(t, 0, t.len() as int, false)
}

proof fn lemma_cover(t: Seq<Token>, p: int, q: int, len: nat)
    requires
        tokens_wf(t, len),
        0 <= p < q <= t.len(),
    ensures
        cover(t, p, q).wf(),
        cover(t, p, q).end <= len,
        cover(t, p, q).within(len),
{
    assert(t[p].span.wf());
    assert(t[q - 1].span.wf());
    if p < q - 1 {
        assert(t[p].span.end <= t[q - 1].span.start);
    }
}

/// A node is well formed when what it says of itself is and its children are.
proof fn lemma_node_wf(n: NodeModel, len: nat)
    requires
        info_wf(n.info, len),
        forest_wf(n.children, len),
    ensures
        node_wf(n, len),
{
}

fn cover_of(tokens: &Vec<Token>, p: usize, q: usize) -> (r: Span)
    requires
        p < q <= tokens.len(),
    ensures
        r == cover(tokens@, p as int, q as int),
{
    Span { start: tokens[p].span.start, end: tokens[q - 1].span.end }
}

fn plain_node(tokens: &Vec<Token>, kind: NodeKind, p: usize, q: usize, Ghost(len): Ghost<nat>) -> (r:
    SyntaxNode)
    requires
        tokens_wf(tokens@, len),
        p < q <= tokens.len(),
    ensures
        node_model(r) == plain(kind, tokens@, p as int, q as int),
        node_wf(node_model(r), len),
{
    let node = SyntaxNode {
        info: NodeInfo {
            kind,
            span: cover_of(tokens, p, q),
            name: Span { start: 0, end: 0 },
            header: Span { start: 0, end: 0 },
            modifiers: Modifiers::none(),
            target: Span { start: 0, end: 0 },
            interface: None,
        },
        children: Vec::new(),
    };
    proof {
        lemma_cover(tokens@, p as int, q as int, len);
        lemma_children_model(node);
        assert(node_model(node).children =~= Seq::<NodeModel>::empty());
    }
    node
}

fn contains_keyword(tokens: &Vec<Token>, from: usize, to: usize, k: Keyword) -> (r: bool)
    requires
        from <= to <= tokens.len(),
    ensures
        r == has_keyword(tokens@, from as int, to as int, k),
{
    let mut found = false;
    let mut i: usize = from;
    while i < to
        invariant
            from <= i <= to,
            to <= tokens.len(),
            found == has_keyword(tokens@, from as int, i as int, k),
        decreases to - i,
    {
        if tokens[i].is_keyword(k) {
            found = true;
        }
        i = i + 1;
    }
    found
}

fn skip_attributes(tokens: &Vec<Token>, p: usize, end: usize) -> (r: usize)
    requires
        p <= end <= tokens.len(),
    ensures
        r == attributes_end(tokens@, p as int, end as int),
        p <= r <= end,
{
    let mut i: usize = p;
    while i < end
        invariant
            p <= i <= end,
            end <= tokens.len(),
            attributes_end(tokens@, p as int, end as int) == attributes_end(
                tokens@,
                i as int,
                end as int,
            ),
        decreases end - i,
    {
        if !tokens[i].is_punct(POUND) {
            return i;
        }
        let q = if i + 1 < end && tokens[i + 1].is_punct(BANG) {
            i + 2
        } else {
            i + 1
        };
        if q < end && tokens[q].is_punct(BRACKET_OPEN) {
            let c = scan(tokens, q + 1, end, Scan::Bracket);
            if c < end {
                i = c + 1;
            } else {
                return end;
            }
        } else {
            return i;
        }
    }
    i
}

fn skip_modifiers(tokens: &Vec<Token>, p: usize, end: usize) -> (r: usize)
    requires
        p <= end <= tokens.len(),
    ensures
        r == modifiers_end(tokens@, p as int, end as int),
        p <= r <= end,
{
    let mut i: usize = p;
    while i < end
        invariant
            p <= i <= end,
            end <= tokens.len(),
            modifiers_end(tokens@, p as int, end as int) == modifiers_end(
                tokens@,
                i as int,
                end as int,
            ),
        decreases end - i,
    {
        let token = &tokens[i];
        if token.is_keyword(Keyword::Pub) {
            if i + 1 < end && tokens[i + 1].is_punct(PAREN_OPEN) {
                let c = scan(tokens, i + 2, end, Scan::Paren);
                if c < end {
                    i = c + 1;
                } else {
                    return end;
                }
            } else {
                i = i + 1;
            }
        } else if token.is_keyword(Keyword::Async) || token.is_keyword(Keyword::Unsafe)
            || token.is_keyword(Keyword::Const) {
            i = i + 1;
        } else if token.is_keyword(Keyword::Extern) {
            if i + 1 < end && tokens[i + 1].is_literal() {
                i = i + 2;
            } else {
                i = i + 1;
            }
        } else {
            return i;
        }
    }
    i
}

fn find_last_word(tokens: &Vec<Token>, from: usize, to: usize, Ghost(len): Ghost<nat>) -> (r: Option<
    Span,
>)
    requires
        tokens_wf(tokens@, len),
        from <= to <= tokens.len(),
    ensures
        r == last_word(tokens@, from as int, to as int, 0, None),
        match r {
            Some(s) => s.within(len),
            None => true,
        },
{
    let mut best: Option<Span> = None;
    let mut depth: usize = 0;
    let mut i: usize = from;
    while i < to
        invariant
            from <= i <= to,
            to <= tokens.len(),
            depth <= i - from,
            tokens_wf(tokens@, len),
            last_word(tokens@, from as int, to as int, 0, None) == last_word(
                tokens@,
                i as int,
                to as int,
                depth as nat,
                best,
            ),
            match best {
                Some(s) => s.within(len),
                None => true,
            },
        decreases to - i,
    {
        let token = &tokens[i];
        if token.is_punct(ANGLE_OPEN) {
            depth = depth + 1;
        } else if token.is_punct(ANGLE_CLOSE) {
            if depth > 0 {
                depth = depth - 1;
            }
        } else if token.is_word() && depth == 0 {
            assert(tokens@[i as int].span.wf());
            best = Some(token.span);
        }
        i = i + 1;
    }
    best
}

fn read_header(tokens: &Vec<Token>, m: usize, h: usize, k: Keyword, Ghost(len): Ghost<nat>) -> (r:
    Option<HeaderParts>)
    requires
        tokens_wf(tokens@, len),
        m < h <= tokens.len(),
    ensures
        r == header_parts(tokens@, m as int, h as int, k),
        match r {
            Some(parts) => parts.name.within(len) && parts.target.within(len) && match parts.interface {
                Some(s) => s.within(len),
                None => true,
            },
            None => true,
        },
{
    match k {
        Keyword::Impl => {
            let g = if m + 1 < h && tokens[m + 1].is_punct(ANGLE_OPEN) {
                let c = scan(tokens, m + 2, h, Scan::Angle);
                if c < h {
                    c + 1
                } else {
                    h
                }
            } else {
                m + 1
            };
            let f = scan(tokens, g, h, Scan::Separator);
            if f < h && tokens[f].is_keyword(Keyword::For) {
                let w = scan(tokens, f + 1, h, Scan::Separator);
                match find_last_word(tokens, f + 1, w, Ghost(len)) {
                    Some(target) => {
                        let interface = find_last_word(tokens, g, f, Ghost(len));
                        Some(HeaderParts { name: target, target, interface })
                    },
                    None => None,
                }
            } else {
                match find_last_word(tokens, g, f, Ghost(len)) {
                    Some(target) => Some(HeaderParts { name: target, target, interface: None }),
                    None => None,
                }
            }
        },
        _ => {
            if m + 1 < h && tokens[m + 1].is_word() {
                assert(tokens@[m + 1].span.wf());
                Some(
                    HeaderParts {
                        name: tokens[m + 1].span,
                        target: Span { start: 0, end: 0 },
                        interface: None,
                    },
                )
            } else {
                None
            }
        },
    }
}

fn read_modifiers(tokens: &Vec<Token>, a: usize, m: usize, h: usize, k: Keyword, inner: bool) -> (r:
    Modifiers)
    requires
        a <= m < h <= tokens.len(),
    ensures
        r == item_modifiers(tokens@, a as int, m as int, h as int, k, inner),
{
    let is_fn = match k {
        Keyword::Fn => true,
        _ => false,
    };
    let mut has_self = false;
    let mut mutable_self = false;
    if is_fn {
        let o = scan(tokens, m + 1, h, Scan::ParamList);
        if o < h {
            let r = scan(tokens, o + 1, h, Scan::Receiver);
            has_self = contains_keyword(tokens, o + 1, r, Keyword::SelfValue);
            mutable_self = has_self && contains_keyword(tokens, o + 1, r, Keyword::Mut);
        }
    }
    Modifiers {
        public: contains_keyword(tokens, a, m, Keyword::Pub),
        is_async: contains_keyword(tokens, a, m, Keyword::Async),
        mutable_self,
        is_static: is_fn && inner && !has_self,
    }
}

fn kind_with_body(k: Keyword) -> (r: NodeKind)
    ensures
        r == body_kind(k),
{
    match k {
        Keyword::Struct => NodeKind::Type,
        Keyword::Enum => NodeKind::Enum,
        Keyword::Trait => NodeKind::Trait,
        Keyword::Impl => NodeKind::Implementation,
        Keyword::Fn => NodeKind::Function,
        Keyword::Mod => NodeKind::Module,
        _ => NodeKind::Other,
    }
}

fn kind_without_body(k: Keyword) -> (r: NodeKind)
    ensures
        r == bodiless_kind(k),
{
    match k {
        Keyword::Struct => NodeKind::Type,
        Keyword::Fn => NodeKind::Prototype,
        Keyword::Mod => NodeKind::Other,
        Keyword::Enum => NodeKind::Error,
        Keyword::Trait => NodeKind::Error,
        Keyword::Impl => NodeKind::Error,
        _ => NodeKind::Other,
    }
}

fn begins_item(k: Keyword) -> (r: bool)
    ensures
        r == is_item_keyword(k),
{
    match k {
        Keyword::Struct => true,
        Keyword::Enum => true,
        Keyword::Trait => true,
        Keyword::Impl => true,
        Keyword::Fn => true,
        Keyword::Mod => true,
        _ => false,
    }
}

fn read_info(
    tokens: &Vec<Token>,
    p: usize,
    a: usize,
    m: usize,
    h: usize,
    q: usize,
    kind: NodeKind,
    k: Keyword,
    inner: bool,
    Ghost(len): Ghost<nat>,
) -> (r: NodeInfo)
    requires
        tokens_wf(tokens@, len),
        p <= a <= m < h < q <= tokens.len(),
    ensures
        r == node_info(tokens@, p as int, a as int, m as int, h as int, q as int, kind, k, inner),
        info_wf(r, len),
{
    proof {
        lemma_cover(tokens@, p as int, q as int, len);
        lemma_cover(tokens@, m as int, h as int, len);
    }
    let plain_kind = match kind {
        NodeKind::Error => true,
        NodeKind::Other => true,
        _ => false,
    };
    match read_header(tokens, m, h, k, Ghost(len)) {
        None => NodeInfo {
            kind: NodeKind::Error,
            span: cover_of(tokens, p, q),
            name: Span { start: 0, end: 0 },
            header: Span { start: 0, end: 0 },
            modifiers: Modifiers::none(),
            target: Span { start: 0, end: 0 },
            interface: None,
        },
        Some(parts) => if plain_kind {
            NodeInfo {
                kind,
                span: cover_of(tokens, p, q),
                name: Span { start: 0, end: 0 },
                header: Span { start: 0, end: 0 },
                modifiers: Modifiers::none(),
                target: Span { start: 0, end: 0 },
                interface: None,
            }
        } else {
            NodeInfo {
                kind,
                span: cover_of(tokens, p, q),
                name: parts.name,
                header: cover_of(tokens, m, h),
                modifiers: read_modifiers(tokens, a, m, h, k, inner),
                target: parts.target,
                interface: parts.interface,
            }
        },
    }
}

fn parse_loose(tokens: &Vec<Token>, p: usize, m: usize, end: usize, Ghost(len): Ghost<nat>) -> (r: (
    SyntaxNode,
    usize,
))
    requires
        tokens_wf(tokens@, len),
        p <= m < end <= tokens.len(),
    ensures
        node_model(r.0) == loose_item(tokens@, p as int, m as int, end as int).0,
        r.1 == loose_item(tokens@, p as int, m as int, end as int).1,
        p < r.1 <= end,
        node_wf(node_model(r.0), len),
{
    let h = scan(tokens, m, end, Scan::Header);
    if h >= end {
        (plain_node(tokens, NodeKind::Error, p, end, Ghost(len)), end)
    } else if tokens[h].is_punct(SEMICOLON) {
        (plain_node(tokens, NodeKind::Other, p, h + 1, Ghost(len)), h + 1)
    } else {
        let c = scan(tokens, h + 1, end, Scan::Block);
        if c >= end {
            (plain_node(tokens, NodeKind::Error, p, end, Ghost(len)), end)
        } else {
            (plain_node(tokens, NodeKind::Other, p, c + 1, Ghost(len)), c + 1)
        }
    }
}

fn parse_variants(tokens: &Vec<Token>, p: usize, end: usize, Ghost(len): Ghost<nat>) -> (r: Vec<
    SyntaxNode,
>)
    requires
        tokens_wf(tokens@, len),
        p <= end <= tokens.len(),
    ensures
        forest_model(r@) == variants_in(tokens@, p as int, end as int),
        forest_wf(forest_model(r@), len),
{
    let mut nodes: Vec<SyntaxNode> = Vec::new();
    let mut i: usize = p;
    proof {
        assert(forest_model(nodes@) + variants_in(tokens@, p as int, end as int) =~= variants_in(
            tokens@,
            p as int,
            end as int,
        ));
    }
    while i < end
        invariant
            p <= i <= end,
            end <= tokens.len(),
            tokens_wf(tokens@, len),
            variants_in(tokens@, p as int, end as int) == forest_model(nodes@) + variants_in(
                tokens@,
                i as int,
                end as int,
            ),
            forest_wf(forest_model(nodes@), len),
        decreases end - i,
    {
        let ghost before = nodes@;
        let ghost rest = variants_in(tokens@, i as int, end as int);
        let a = skip_attributes(tokens, i, end);
        let node: SyntaxNode;
        let next: usize;
        if a >= end {
            node = plain_node(tokens, NodeKind::Error, i, end, Ghost(len));
            next = end;
            proof {
                assert(rest =~= seq![node_model(node)] + variants_in(tokens@, next as int, end as int));
            }
        } else if tokens[a].is_word() {
            let v = scan(tokens, a + 1, end, Scan::Variant);
            node =
            SyntaxNode {
                info: NodeInfo {
                    kind: NodeKind::EnumVariant,
                    span: cover_of(tokens, i, v),
                    name: tokens[a].span,
                    header: cover_of(tokens, a, v),
                    modifiers: Modifiers::none(),
                    target: Span { start: 0, end: 0 },
                    interface: None,
                },
                children: Vec::new(),
            };
            next = if v < end {
                v + 1
            } else {
                end
            };
            proof {
                lemma_cover(tokens@, i as int, v as int, len);
                lemma_cover(tokens@, a as int, v as int, len);
                assert(tokens@[a as int].span.wf());
                lemma_children_model(node);
                assert(node_model(node).children =~= Seq::<NodeModel>::empty());
                assert(rest == seq![node_model(node)] + variants_in(tokens@, next as int, end as int));
            }
        } else {
            node = plain_node(tokens, NodeKind::Error, i, a + 1, Ghost(len));
            next = a + 1;
        }
        nodes.push(node);
        proof {
            assert(forest_model(nodes@) =~= forest_model(before).push(node_model(node)));
            assert(forest_model(before) + (seq![node_model(node)] + variants_in(
                tokens@,
                next as int,
                end as int,
            )) =~= forest_model(nodes@) + variants_in(tokens@, next as int, end as int));
            assert forall|j: int| 0 <= j < forest_model(nodes@).len() implies node_wf(
                #[trigger] forest_model(nodes@)[j],
                len,
            ) by {
                if j < before.len() {
                    assert(forest_model(nodes@)[j] == forest_model(before)[j]);
                }
            }
        }
        i = next;
    }
    proof {
        assert(forest_model(nodes@) + variants_in(tokens@, i as int, end as int) =~= forest_model(
            nodes@,
        ));
    }
    nodes
}

fn parse_item(tokens: &Vec<Token>, p: usize, end: usize, inner: bool, Ghost(len): Ghost<nat>) -> (r: (
    SyntaxNode,
    usize,
))
    requires
        tokens_wf(tokens@, len),
        p < end <= tokens.len(),
    ensures
        node_model(r.0) == item_at(tokens@, p as int, end as int, inner).0,
        r.1 == item_at(tokens@, p as int, end as int, inner).1,
        p < r.1 <= end,
        node_wf(node_model(r.0), len),
    decreases end - p, 0nat,
{
    let a = skip_attributes(tokens, p, end);
    let m = skip_modifiers(tokens, a, end);
    if m >= end {
        return (plain_node(tokens, NodeKind::Error, p, end, Ghost(len)), end);
    }
    match tokens[m].kind {
        TokenKind::Keyword(k) => {
            if begins_item(k) {
                let h = scan(tokens, m + 1, end, Scan::Header);
                if h >= end {
                    (plain_node(tokens, NodeKind::Error, p, end, Ghost(len)), end)
                } else if tokens[h].is_punct(SEMICOLON) {
                    let info = read_info(
                        tokens,
                        p,
                        a,
                        m,
                        h,
                        h + 1,
                        kind_without_body(k),
                        k,
                        inner,
                        Ghost(len),
                    );
                    let node = SyntaxNode { info, children: Vec::new() };
                    proof {
                        lemma_children_model(node);
                        assert(node_model(node).children =~= Seq::<NodeModel>::empty());
                        assert(node_wf(node_model(node), len));
                    }
                    (node, h + 1)
                } else {
                    let c = scan(tokens, h + 1, end, Scan::Block);
                    if c >= end {
                        (plain_node(tokens, NodeKind::Error, p, end, Ghost(len)), end)
                    } else {
                        let info = read_info(
                            tokens,
                            p,
                            a,
                            m,
                            h,
                            c + 1,
                            kind_with_body(k),
                            k,
                            inner,
                            Ghost(len),
                        );
                        let children = match info.kind {
                            NodeKind::Module => parse_items(tokens, h + 1, c, false, Ghost(len)),
                            NodeKind::Trait => parse_items(tokens, h + 1, c, true, Ghost(len)),
                            NodeKind::Implementation => parse_items(
                                tokens,
                                h + 1,
                                c,
                                true,
                                Ghost(len),
                            ),
                            NodeKind::Enum => parse_variants(tokens, h + 1, c, Ghost(len)),
                            _ => {
                                let none: Vec<SyntaxNode> = Vec::new();
                                assert(forest_model(none@) =~= Seq::<NodeModel>::empty());
                                none
                            },
                        };
                        let node = SyntaxNode { info, children };
                        proof {
                            lemma_children_model(node);
                            lemma_node_wf(node_model(node), len);
                        }
                        (node, c + 1)
                    }
                }
            } else {
                parse_loose(tokens, p, m, end, Ghost(len))
            }
        },
        TokenKind::Punct(b) => {
            if b == BRACE_CLOSE {
                (plain_node(tokens, NodeKind::Error, p, m + 1, Ghost(len)), m + 1)
            } else {
                parse_loose(tokens, p, m, end, Ghost(len))
            }
        },
        _ => parse_loose(tokens, p, m, end, Ghost(len)),
    }
}

fn parse_items(tokens: &Vec<Token>, p: usize, end: usize, inner: bool, Ghost(len): Ghost<nat>) -> (r:
    Vec<SyntaxNode>)
    requires
        tokens_wf(tokens@, len),
        p <= end <= tokens.len(),
    ensures
        forest_model(r@) == items_in(tokens@, p as int, end as int, inner),
        forest_wf(forest_model(r@), len),
    decreases end - p, 1nat,
{
    let mut nodes: Vec<SyntaxNode> = Vec::new();
    let mut i: usize = p;
    proof {
        assert(forest_model(nodes@) + items_in(tokens@, p as int, end as int, inner) =~= items_in(
            tokens@,
            p as int,
            end as int,
            inner,
        ));
    }
    while i < end
        invariant
            p <= i <= end,
            end <= tokens.len(),
            tokens_wf(tokens@, len),
            items_in(tokens@, p as int, end as int, inner) == forest_model(nodes@) + items_in(
                tokens@,
                i as int,
                end as int,
                inner,
            ),
            forest_wf(forest_model(nodes@), len),
        decreases end - i,
    {
        let ghost before = nodes@;
        let (node, next) = parse_item(tokens, i, end, inner, Ghost(len));
        let ghost model = node_model(node);
        nodes.push(node);
        proof {
            assert(forest_model(nodes@) =~= forest_model(before).push(model));
            if next < end {
                assert(items_in(tokens@, i as int, end as int, inner) == seq![model] + items_in(
                    tokens@,
                    next as int,
                    end as int,
                    inner,
                ));
            } else {
                assert(items_in(tokens@, next as int, end as int, inner) =~= Seq::<NodeModel>::empty());
                assert(items_in(tokens@, i as int, end as int, inner) =~= seq![model] + items_in(
                    tokens@,
                    next as int,
                    end as int,
                    inner,
                ));
            }
            assert(forest_model(before) + (seq![model] + items_in(
                tokens@,
                next as int,
                end as int,
                inner,
            )) =~= forest_model(nodes@) + items_in(tokens@, next as int, end as int, inner));
            assert forall|j: int| 0 <= j < forest_model(nodes@).len() implies node_wf(
                #[trigger] forest_model(nodes@)[j],
                len,
            ) by {
                if j < before.len() {
                    assert(forest_model(nodes@)[j] == forest_model(before)[j]);
                }
            }
        }
        i = next;
    }
    proof {
        assert(forest_model(nodes@) + items_in(tokens@, i as int, end as int, inner) =~= forest_model(
            nodes@,
        ));
    }
    nodes
}

/// Parses Rust-shaped source text into its top-level nodes. Never fails: text that
/// is no declaration comes back as nodes of kind `Other` or `Error`.
pub fn parse_rust(source: &[u8]) -> (roots: Vec<SyntaxNode>)
    ensures
        forest_model(roots@) == rust_forest(source@),
        forest_wf(forest_model(roots@), source@.len()),
{
    let tokens = tokenize(source);
    parse_items(&tokens, 0, tokens.len(), false, Ghost(source@.len()))
}

} // verus!
