//! Scanning a run of tokens for the first one that ends a construct, past whatever
//! nests inside brackets.

use vstd::prelude::*;
use crate::syntax::token::{
    ANGLE_CLOSE, ANGLE_OPEN, BRACE_CLOSE, BRACE_OPEN, BRACKET_CLOSE, BRACKET_OPEN, COMMA, Keyword,
    PAREN_CLOSE, PAREN_OPEN, SEMICOLON, Token, TokenKind,
};

verus! {

/// What a scan looks for.
#[derive(Clone, Copy, Debug, PartialEq, Eq, Structural)]
pub enum Scan {
    /// The `{` or `;` that ends a declaration's header, outside `()` and `[]`.
    Header,
    /// The `}` that closes a block, past nested blocks.
    Block,
    /// The `,` that ends an enum variant, outside `()`, `[]` and `{}`.
    Variant,
    /// The `]` that closes an attribute.
    Bracket,
    /// The `)` that closes a group.
    Paren,
    /// The `>` that closes a list of generic parameters.
    Angle,
    /// The `for` or `where` of an implementation's header, outside `<>`.
    Separator,
    /// The `,` or `)` that ends the first parameter.
    Receiver,
    /// The `(` that opens a parameter list.
    ParamList,
}

pub open spec fn stops(mode: Scan, k: TokenKind) -> bool {
    match mode {
        Scan::Header => k == TokenKind::Punct(BRACE_OPEN) || k == TokenKind::Punct(SEMICOLON),
        Scan::Block => k == TokenKind::Punct(BRACE_CLOSE),
        Scan::Variant => k == TokenKind::Punct(COMMA),
        Scan::Bracket => k == TokenKind::Punct(BRACKET_CLOSE),
        Scan::Paren => k == TokenKind::Punct(PAREN_CLOSE),
        Scan::Angle => k == TokenKind::Punct(ANGLE_CLOSE),
        Scan::Separator => k == TokenKind::Keyword(Keyword::For) || k == TokenKind::Keyword(
            Keyword::Where,
        ),
        Scan::Receiver => k == TokenKind::Punct(COMMA) || k == TokenKind::Punct(PAREN_CLOSE),
        Scan::ParamList => k == TokenKind::Punct(PAREN_OPEN),
    }
}

pub open spec fn opens(mode: Scan, k: TokenKind) -> bool {
    match mode {
        Scan::Header => k == TokenKind::Punct(PAREN_OPEN) || k == TokenKind::Punct(BRACKET_OPEN),
        Scan::Block => k == TokenKind::Punct(BRACE_OPEN),
        Scan::Variant => k == TokenKind::Punct(PAREN_OPEN) || k == TokenKind::Punct(BRACKET_OPEN)
            || k == TokenKind::Punct(BRACE_OPEN),
        Scan::Bracket => k == TokenKind::Punct(BRACKET_OPEN),
        Scan::Paren => k == TokenKind::Punct(PAREN_OPEN),
        Scan::Angle => k == TokenKind::Punct(ANGLE_OPEN),
        Scan::Separator => k == TokenKind::Punct(ANGLE_OPEN),
        Scan::Receiver => false,
        Scan::ParamList => false,
    }
}

pub open spec fn closes(mode: Scan, k: TokenKind) -> bool {
    match mode {
        Scan::Header => k == TokenKind::Punct(PAREN_CLOSE) || k == TokenKind::Punct(BRACKET_CLOSE),
        Scan::Block => k == TokenKind::Punct(BRACE_CLOSE),
        Scan::Variant => k == TokenKind::Punct(PAREN_CLOSE) || k == TokenKind::Punct(BRACKET_CLOSE)
            || k == TokenKind::Punct(BRACE_CLOSE),
        Scan::Bracket => k == TokenKind::Punct(BRACKET_CLOSE),
        Scan::Paren => k == TokenKind::Punct(PAREN_CLOSE),
        Scan::Angle => k == TokenKind::Punct(ANGLE_CLOSE),
        Scan::Separator => k == TokenKind::Punct(ANGLE_CLOSE),
        Scan::Receiver => false,
        Scan::ParamList => false,
    }
}

/// The first position in `[p, end)`, reached at nesting depth zero, whose token
/// stops the scan; `end` when there is none.
pub open spec fn scan_from(t: Seq<Token>, p: int, end: int, mode: Scan, depth: nat) -> int
    decreases end - p,
{
    if p >= end {
        end
    } else if depth == 0 && stops(mode, t[p].kind) {
        p
    } else if opens(mode, t[p].kind) {
        scan_from(t, p + 1, end, mode, depth + 1)
    } else if closes(mode, t[p].kind) && depth > 0 {
        scan_from(t, p + 1, end, mode, (depth - 1) as nat)
    } else {
        scan_from(t, p + 1, end, mode, depth)
    }
}

fn mode_stops(mode: Scan, token: &Token) -> (r: bool)
    ensures
        r == stops(mode, token.kind),
{
    match mode {
        Scan::Header => token.is_punct(BRACE_OPEN) || token.is_punct(SEMICOLON),
        Scan::Block => token.is_punct(BRACE_CLOSE),
        Scan::Variant => token.is_punct(COMMA),
        Scan::Bracket => token.is_punct(BRACKET_CLOSE),
        Scan::Paren => token.is_punct(PAREN_CLOSE),
        Scan::Angle => token.is_punct(ANGLE_CLOSE),
        Scan::Separator => token.is_keyword(Keyword::For) || token.is_keyword(Keyword::Where),
        Scan::Receiver => token.is_punct(COMMA) || token.is_punct(PAREN_CLOSE),
        Scan::ParamList => token.is_punct(PAREN_OPEN),
    }
}

fn mode_opens(mode: Scan, token: &Token) -> (r: bool)
    ensures
        r == opens(mode, token.kind),
{
    match mode {
        Scan::Header => token.is_punct(PAREN_OPEN) || token.is_punct(BRACKET_OPEN),
        Scan::Block => token.is_punct(BRACE_OPEN),
        Scan::Variant => token.is_punct(PAREN_OPEN) || token.is_punct(BRACKET_OPEN)
            || token.is_punct(BRACE_OPEN),
        Scan::Bracket => token.is_punct(BRACKET_OPEN),
        Scan::Paren => token.is_punct(PAREN_OPEN),
        Scan::Angle => token.is_punct(ANGLE_OPEN),
        Scan::Separator => token.is_punct(ANGLE_OPEN),
        Scan::Receiver => false,
        Scan::ParamList => false,
    }
}

fn mode_closes(mode: Scan, token: &Token) -> (r: bool)
    ensures
        r == closes(mode, token.kind),
{
    match mode {
        Scan::Header => token.is_punct(PAREN_CLOSE) || token.is_punct(BRACKET_CLOSE),
        Scan::Block => token.is_punct(BRACE_CLOSE),
        Scan::Variant => token.is_punct(PAREN_CLOSE) || token.is_punct(BRACKET_CLOSE)
            || token.is_punct(BRACE_CLOSE),
        Scan::Bracket => token.is_punct(BRACKET_CLOSE),
        Scan::Paren => token.is_punct(PAREN_CLOSE),
        Scan::Angle => token.is_punct(ANGLE_CLOSE),
        Scan::Separator => token.is_punct(ANGLE_CLOSE),
        Scan::Receiver => false,
        Scan::ParamList => false,
    }
}

/// Scans `tokens[start..end]`.
pub fn scan(tokens: &Vec<Token>, start: usize, end: usize, mode: Scan) -> (r: usize)
    requires
        start <= end <= tokens.len(),
    ensures
        r == scan_from(tokens@, start as int, end as int, mode, 0),
        start <= r <= end,
        r < end ==> stops(mode, tokens[r as int].kind),
{
    let mut p: usize = start;
    let mut depth: usize = 0;
    while p < end
        invariant
            start <= p <= end,
            end <= tokens.len(),
            depth <= p - start,
            scan_from(tokens@, start as int, end as int, mode, 0) == scan_from(
                tokens@,
                p as int,
                end as int,
                mode,
                depth as nat,
            ),
        decreases end - p,
    {
        let token = &tokens[p];
        if depth == 0 && mode_stops(mode, token) {
            return p;
        } else if mode_opens(mode, token) {
            depth = depth + 1;
        } else if mode_closes(mode, token) && depth > 0 {
            depth = depth - 1;
        }
        p = p + 1;
    }
    p
}

/// A scan ends at or after where it begins and at or before `end`; where it ends
/// before `end`, the token there stops it.
pub proof fn lemma_scan(t: Seq<Token>, p: int, end: int, mode: Scan, depth: nat)
    requires
        0 <= p <= end,
    ensures
        p <= scan_from(t, p, end, mode, depth) <= end,
        scan_from(t, p, end, mode, depth) < end ==> stops(
            mode,
            t[scan_from(t, p, end, mode, depth)].kind,
        ),
    decreases end - p,
{
    if p < end && !(depth == 0 && stops(mode, t[p].kind)) {
        if opens(mode, t[p].kind) {
            lemma_scan(t, p + 1, end, mode, depth + 1);
        } else if closes(mode, t[p].kind) && depth > 0 {
            lemma_scan(t, p + 1, end, mode, (depth - 1) as nat);
        } else {
            lemma_scan(t, p + 1, end, mode, depth);
        }
    }
}

} // verus!
