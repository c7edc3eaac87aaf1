//! The token stream of Rust-shaped source text: words, literals and single
//! punctuation bytes, with white space and comments left out.

use vstd::prelude::*;
use crate::identity::{byte_is_space, byte_is_word, is_space, is_word};
use crate::span::Span;

verus! {

pub const NEWLINE: u8 = 0x0a;

pub const BANG: u8 = 0x21;

pub const QUOTE: u8 = 0x22;

pub const POUND: u8 = 0x23;

pub const TICK: u8 = 0x27;

pub const PAREN_OPEN: u8 = 0x28;

pub const PAREN_CLOSE: u8 = 0x29;

pub const STAR: u8 = 0x2a;

pub const COMMA: u8 = 0x2c;

pub const SLASH: u8 = 0x2f;

pub const SEMICOLON: u8 = 0x3b;

pub const ANGLE_OPEN: u8 = 0x3c;

pub const ANGLE_CLOSE: u8 = 0x3e;

pub const BRACKET_OPEN: u8 = 0x5b;

pub const BACKSLASH: u8 = 0x5c;

pub const BRACKET_CLOSE: u8 = 0x5d;

pub const BRACE_OPEN: u8 = 0x7b;

pub const BRACE_CLOSE: u8 = 0x7d;

/// The words that shape a declaration.
#[derive(Clone, Copy, Debug, PartialEq, Eq, Structural)]
pub enum Keyword {
    Struct,
    Enum,
    Trait,
    Impl,
    Fn,
    Mod,
    Pub,
    Async,
    Unsafe,
    Const,
    Extern,
    For,
    Where,
    SelfValue,
    Mut,
}

#[derive(Clone, Copy, Debug, PartialEq, Eq, Structural)]
pub enum TokenKind {
    /// An identifier that is no keyword.
    Word,
    Keyword(Keyword),
    /// A number, a string or a character.
    Literal,
    /// Any other single byte.
    Punct(u8),
}

#[derive(Clone, Copy, Debug, PartialEq, Eq, Structural)]
pub struct Token {
    pub kind: TokenKind,
    pub span: Span,
}

impl Token {
    pub fn is_punct(&self, b: u8) -> (r: bool)
        ensures
            r == (self.kind == TokenKind::Punct(b)),
    {
        match self.kind {
            TokenKind::Punct(x) => x == b,
            _ => false,
        }
    }

    pub fn is_keyword(&self, k: Keyword) -> (r: bool)
        ensures
            r == (self.kind == TokenKind::Keyword(k)),
    {
        match self.kind {
            TokenKind::Keyword(x) => x == k,
            _ => false,
        }
    }

    pub fn is_word(&self) -> (r: bool)
        ensures
            r == (self.kind is Word),
    {
        match self.kind {
            TokenKind::Word => true,
            _ => false,
        }
    }

    pub fn is_literal(&self) -> (r: bool)
        ensures
            r == (self.kind is Literal),
    {
        match self.kind {
            TokenKind::Literal => true,
            _ => false,
        }
    }
}

/// What the scanner is inside of while it skips what is no token.
#[derive(Clone, Copy, Debug, PartialEq, Eq, Structural)]
pub enum Trivia {
    Code,
    Line,
    Block,
}

/// Where the white space and comments that begin at `i` end. A line comment runs to
/// the end of its line, a block comment to the first `*/`; one that is not closed
/// runs to the end of the text.
pub open spec fn trivia_end(s: Seq<u8>, i: int, mode: Trivia) -> int
    decreases s.len() - i,
{
    if i < 0 || i >= s.len() {
        s.len() as int
    } else {
        match mode {
            Trivia::Code => if is_space(s[i]) {
                trivia_end(s, i + 1, Trivia::Code)
            } else if s[i] == SLASH && i + 1 < s.len() && s[i + 1] == SLASH {
                trivia_end(s, i + 2, Trivia::Line)
            } else if s[i] == SLASH && i + 1 < s.len() && s[i + 1] == STAR {
                trivia_end(s, i + 2, Trivia::Block)
            } else {
                i
            },
            Trivia::Line => if s[i] == NEWLINE {
                trivia_end(s, i + 1, Trivia::Code)
            } else {
                trivia_end(s, i + 1, Trivia::Line)
            },
            Trivia::Block => if s[i] == STAR && i + 1 < s.len() && s[i + 1] == SLASH {
                trivia_end(s, i + 2, Trivia::Code)
            } else {
                trivia_end(s, i + 1, Trivia::Block)
            },
        }
    }
}

/// Where the run of word bytes that begins at `i` ends.
pub open spec fn word_end(s: Seq<u8>, i: int) -> int
    decreases s.len() - i,
{
    if 0 <= i < s.len() && is_word(s[i]) {
        word_end(s, i + 1)
    } else {
        i
    }
}

/// Where the string whose contents begin at `i` ends: after the first `"` that no
/// backslash escapes, or at the end of the text.
pub open spec fn string_end(s: Seq<u8>, i: int) -> int
    decreases s.len() - i,
{
    if i < 0 || i >= s.len() {
        s.len() as int
    } else if s[i] == QUOTE {
        i + 1
    } else if s[i] == BACKSLASH {
        if i + 2 <= s.len() {
            string_end(s, i + 2)
        } else {
            s.len() as int
        }
    } else {
        string_end(s, i + 1)
    }
}

/// Just after the first `'` at or after `i`, or the end of the text.
pub open spec fn tick_end(s: Seq<u8>, i: int) -> int
    decreases s.len() - i,
{
    if i < 0 || i >= s.len() {
        s.len() as int
    } else if s[i] == TICK {
        i + 1
    } else {
        tick_end(s, i + 1)
    }
}

/// Where the token that begins at `i` ends.
pub open spec fn token_end(s: Seq<u8>, i: int) -> int {
    let b = s[i];
    if is_word(b) {
        word_end(s, i + 1)
    } else if b == QUOTE {
        string_end(s, i + 1)
    } else if b == TICK {
        if i + 2 < s.len() && s[i + 1] != BACKSLASH && s[i + 1] != TICK && s[i + 2] == TICK {
            i + 3
        } else if i + 1 < s.len() && s[i + 1] == BACKSLASH {
            tick_end(s, i + 3)
        } else {
            i + 1
        }
    } else {
        i + 1
    }
}

pub open spec fn is_digit(b: u8) -> bool {
    0x30 <= b && b <= 0x39
}

/// The keyword that `word` spells, if any.
pub open spec fn keyword_of(word: Seq<u8>) -> Option<Keyword> {
    if word == seq![0x73u8, 0x74, 0x72, 0x75, 0x63, 0x74] {
        Some(Keyword::Struct)
    } else if word == seq![0x65u8, 0x6e, 0x75, 0x6d] {
        Some(Keyword::Enum)
    } else if word == seq![0x74u8, 0x72, 0x61, 0x69, 0x74] {
        Some(Keyword::Trait)
    } else if word == seq![0x69u8, 0x6d, 0x70, 0x6c] {
        Some(Keyword::Impl)
    } else if word == seq![0x66u8, 0x6e] {
        Some(Keyword::Fn)
    } else if word == seq![0x6du8, 0x6f, 0x64] {
        Some(Keyword::Mod)
    } else if word == seq![0x70u8, 0x75, 0x62] {
        Some(Keyword::Pub)
    } else if word == seq![0x61u8, 0x73, 0x79, 0x6e, 0x63] {
        Some(Keyword::Async)
    } else if word == seq![0x75u8, 0x6e, 0x73, 0x61, 0x66, 0x65] {
        Some(Keyword::Unsafe)
    } else if word == seq![0x63u8, 0x6f, 0x6e, 0x73, 0x74] {
        Some(Keyword::Const)
    } else if word == seq![0x65u8, 0x78, 0x74, 0x65, 0x72, 0x6e] {
        Some(Keyword::Extern)
    } else if word == seq![0x66u8, 0x6f, 0x72] {
        Some(Keyword::For)
    } else if word == seq![0x77u8, 0x68, 0x65, 0x72, 0x65] {
        Some(Keyword::Where)
    } else if word == seq![0x73u8, 0x65, 0x6c, 0x66] {
        Some(Keyword::SelfValue)
    } else if word == seq![0x6du8, 0x75, 0x74] {
        Some(Keyword::Mut)
    } else {
        None
    }
}

/// The kind of the token that spans `[i, end)`.
pub open spec fn token_kind(s: Seq<u8>, i: int, end: int) -> TokenKind {
    let b = s[i];
    if is_digit(b) {
        TokenKind::Literal
    } else if is_word(b) {
        match keyword_of(s.subrange(i, end)) {
            Some(k) => TokenKind::Keyword(k),
            None => TokenKind::Word,
        }
    } else if b == QUOTE {
        TokenKind::Literal
    } else if b == TICK && end > i + 1 {
        TokenKind::Literal
    } else {
        TokenKind::Punct(b)
    }
}

/// The token that begins at `i`.
pub open spec fn token_at(s: Seq<u8>, i: int) -> Token {
    let end = token_end(s, i);
    Token { kind: token_kind(s, i, end), span: Span { start: i as usize, end: end as usize } }
}

/// The tokens of `s` from `i` on.
pub open spec fn tokens_from(s: Seq<u8>, i: int) -> Seq<Token>
    decreases s.len() - i,
{
    let j = trivia_end(s, i, Trivia::Code);
    if i < 0 || j < i || j >= s.len() {
        Seq::empty()
    } else {
        let end = token_end(s, j);
        if end <= j || end > s.len() {
            Seq::empty()
        } else {
            seq![token_at(s, j)] + tokens_from(s, end)
        }
    }
}

/// The tokens of `s`.
pub open spec fn tokens_of(s: Seq<u8>) -> Seq<Token> {
    tokens_from(s, 0)
}

/// Tokens lie inside a text of `len` bytes, none is empty, and each ends before the
/// next begins.
pub open spec fn tokens_wf(t: Seq<Token>, len: nat) -> bool {
    &&& t.len() <= len
    &&& forall|i: int| 0 <= i < t.len() ==> (#[trigger] t[i]).span.wf() && t[i].span.end <= len
    &&& forall|i: int, j: int|
        0 <= i < j < t.len() ==> (#[trigger] t[i]).span.end <= (#[trigger] t[j]).span.start
}

fn skip_trivia(src: &[u8], start: usize) -> (r: usize)
    requires
        start <= src.len(),
    ensures
        r == trivia_end(src@, start as int, Trivia::Code),
        start <= r <= src.len(),
{
    let mut i: usize = start;
    let mut mode = Trivia::Code;
    let mut done = false;
    while i < src.len() && !done
        invariant
            start <= i <= src.len(),
            trivia_end(src@, start as int, Trivia::Code) == trivia_end(src@, i as int, mode),
            done ==> mode == Trivia::Code && i < src.len() && trivia_end(src@, i as int, mode) == i,
        decreases src.len() - i + (if done { 0int } else { 1int }),
    {
        let b = src[i];
        match mode {
            Trivia::Code => {
                if byte_is_space(b) {
                    i = i + 1;
                } else if b == SLASH && i + 1 < src.len() && src[i + 1] == SLASH {
                    i = i + 2;
                    mode = Trivia::Line;
                } else if b == SLASH && i + 1 < src.len() && src[i + 1] == STAR {
                    i = i + 2;
                    mode = Trivia::Block;
                } else {
                    done = true;
                }
            },
            Trivia::Line => {
                if b == NEWLINE {
                    mode = Trivia::Code;
                }
                i = i + 1;
            },
            Trivia::Block => {
                if b == STAR && i + 1 < src.len() && src[i + 1] == SLASH {
                    i = i + 2;
                    mode = Trivia::Code;
                } else {
                    i = i + 1;
                }
            },
        }
    }
    i
}

fn scan_word(src: &[u8], start: usize) -> (r: usize)
    requires
        start <= src.len(),
    ensures
        r == word_end(src@, start as int),
        start <= r <= src.len(),
{
    let mut i: usize = start;
    while i < src.len() && byte_is_word(src[i])
        invariant
            start <= i <= src.len(),
            word_end(src@, start as int) == word_end(src@, i as int),
        decreases src.len() - i,
    {
        i = i + 1;
    }
    i
}

fn scan_string(src: &[u8], start: usize) -> (r: usize)
    requires
        start <= src.len(),
    ensures
        r == string_end(src@, start as int),
        start <= r <= src.len(),
{
    let mut i: usize = start;
    while i < src.len()
        invariant
            start <= i <= src.len(),
            string_end(src@, start as int) == string_end(src@, i as int),
        decreases src.len() - i,
    {
        let b = src[i];
        if b == QUOTE {
            return i + 1;
        } else if b == BACKSLASH {
            if src.len() - i >= 2 {
                i = i + 2;
            } else {
                return src.len();
            }
        } else {
            i = i + 1;
        }
    }
    i
}

fn scan_tick(src: &[u8], start: usize) -> (r: usize)
    requires
        start <= src.len(),
    ensures
        r == tick_end(src@, start as int),
        start <= r <= src.len(),
{
    let mut i: usize = start;
    while i < src.len()
        invariant
            start <= i <= src.len(),
            tick_end(src@, start as int) == tick_end(src@, i as int),
        decreases src.len() - i,
    {
        if src[i] == TICK {
            return i + 1;
        }
        i = i + 1;
    }
    i
}

/// Whether `src[start..end]` spells `word`.
pub fn spells<const N: usize>(src: &[u8], start: usize, end: usize, word: &[u8; N]) -> (r: bool)
    requires
        start <= end <= src.len(),
    ensures
        r == (src@.subrange(start as int, end as int) == word@),
{
    if end - start != N {
        assert(src@.subrange(start as int, end as int).len() != word@.len());
        return false;
    }
    let mut i: usize = 0;
    while i < N
        invariant
            i <= N,
            end - start == N,
            end <= src.len(),
            forall|j: int| 0 <= j < i ==> src@[start + j] == word@[j],
        decreases N - i,
    {
        if src[start + i] != word[i] {
            assert(src@.subrange(start as int, end as int)[i as int] != word@[i as int]);
            return false;
        }
        i = i + 1;
    }
    assert(src@.subrange(start as int, end as int) =~= word@);
    true
}

fn classify(src: &[u8], start: usize, end: usize) -> (r: Option<Keyword>)
    requires
        start <= end <= src.len(),
    ensures
        r == keyword_of(src@.subrange(start as int, end as int)),
{
    let k_struct: [u8; 6] = [0x73, 0x74, 0x72, 0x75, 0x63, 0x74];
    let k_enum: [u8; 4] = [0x65, 0x6e, 0x75, 0x6d];
    let k_trait: [u8; 5] = [0x74, 0x72, 0x61, 0x69, 0x74];
    let k_impl: [u8; 4] = [0x69, 0x6d, 0x70, 0x6c];
    let k_fn: [u8; 2] = [0x66, 0x6e];
    let k_mod: [u8; 3] = [0x6d, 0x6f, 0x64];
    let k_pub: [u8; 3] = [0x70, 0x75, 0x62];
    let k_async: [u8; 5] = [0x61, 0x73, 0x79, 0x6e, 0x63];
    let k_unsafe: [u8; 6] = [0x75, 0x6e, 0x73, 0x61, 0x66, 0x65];
    let k_const: [u8; 5] = [0x63, 0x6f, 0x6e, 0x73, 0x74];
    let k_extern: [u8; 6] = [0x65, 0x78, 0x74, 0x65, 0x72, 0x6e];
    let k_for: [u8; 3] = [0x66, 0x6f, 0x72];
    let k_where: [u8; 5] = [0x77, 0x68, 0x65, 0x72, 0x65];
    let k_self: [u8; 4] = [0x73, 0x65, 0x6c, 0x66];
    let k_mut: [u8; 3] = [0x6d, 0x75, 0x74];
    proof {
        assert(k_struct@ =~= seq![0x73u8, 0x74, 0x72, 0x75, 0x63, 0x74]);
        assert(k_enum@ =~= seq![0x65u8, 0x6e, 0x75, 0x6d]);
        assert(k_trait@ =~= seq![0x74u8, 0x72, 0x61, 0x69, 0x74]);
        assert(k_impl@ =~= seq![0x69u8, 0x6d, 0x70, 0x6c]);
        assert(k_fn@ =~= seq![0x66u8, 0x6e]);
        assert(k_mod@ =~= seq![0x6du8, 0x6f, 0x64]);
        assert(k_pub@ =~= seq![0x70u8, 0x75, 0x62]);
        assert(k_async@ =~= seq![0x61u8, 0x73, 0x79, 0x6e, 0x63]);
        assert(k_unsafe@ =~= seq![0x75u8, 0x6e, 0x73, 0x61, 0x66, 0x65]);
        assert(k_const@ =~= seq![0x63u8, 0x6f, 0x6e, 0x73, 0x74]);
        assert(k_extern@ =~= seq![0x65u8, 0x78, 0x74, 0x65, 0x72, 0x6e]);
        assert(k_for@ =~= seq![0x66u8, 0x6f, 0x72]);
        assert(k_where@ =~= seq![0x77u8, 0x68, 0x65, 0x72, 0x65]);
        assert(k_self@ =~= seq![0x73u8, 0x65, 0x6c, 0x66]);
        assert(k_mut@ =~= seq![0x6du8, 0x75, 0x74]);
    }
    if spells(src, start, end, &k_struct) {
        Some(Keyword::Struct)
    } else if spells(src, start, end, &k_enum) {
        Some(Keyword::Enum)
    } else if spells(src, start, end, &k_trait) {
        Some(Keyword::Trait)
    } else if spells(src, start, end, &k_impl) {
        Some(Keyword::Impl)
    } else if spells(src, start, end, &k_fn) {
        Some(Keyword::Fn)
    } else if spells(src, start, end, &k_mod) {
        Some(Keyword::Mod)
    } else if spells(src, start, end, &k_pub) {
        Some(Keyword::Pub)
    } else if spells(src, start, end, &k_async) {
        Some(Keyword::Async)
    } else if spells(src, start, end, &k_unsafe) {
        Some(Keyword::Unsafe)
    } else if spells(src, start, end, &k_const) {
        Some(Keyword::Const)
    } else if spells(src, start, end, &k_extern) {
        Some(Keyword::Extern)
    } else if spells(src, start, end, &k_for) {
        Some(Keyword::For)
    } else if spells(src, start, end, &k_where) {
        Some(Keyword::Where)
    } else if spells(src, start, end, &k_self) {
        Some(Keyword::SelfValue)
    } else if spells(src, start, end, &k_mut) {
        Some(Keyword::Mut)
    } else {
        None
    }
}

fn lex_one(src: &[u8], i: usize) -> (r: Token)
    requires
        i < src.len(),
    ensures
        r == token_at(src@, i as int),
        r.span.end == token_end(src@, i as int),
        i < r.span.end <= src.len(),
        r.span.start == i,
{
    let b = src[i];
    if byte_is_word(b) {
        let end = scan_word(src, i + 1);
        let kind = if 0x30 <= b && b <= 0x39 {
            TokenKind::Literal
        } else {
            match classify(src, i, end) {
                Some(k) => TokenKind::Keyword(k),
                None => TokenKind::Word,
            }
        };
        Token { kind, span: Span { start: i, end } }
    } else if b == QUOTE {
        let end = scan_string(src, i + 1);
        Token { kind: TokenKind::Literal, span: Span { start: i, end } }
    } else if b == TICK {
        if src.len() - i > 2 && src[i + 1] != BACKSLASH && src[i + 1] != TICK && src[i + 2] == TICK {
            Token { kind: TokenKind::Literal, span: Span { start: i, end: i + 3 } }
        } else if src.len() - i > 1 && src[i + 1] == BACKSLASH {
            let end = if src.len() - i >= 3 {
                scan_tick(src, i + 3)
            } else {
                src.len()
            };
            Token { kind: TokenKind::Literal, span: Span { start: i, end } }
        } else {
            Token { kind: TokenKind::Punct(b), span: Span { start: i, end: i + 1 } }
        }
    } else {
        Token { kind: TokenKind::Punct(b), span: Span { start: i, end: i + 1 } }
    }
}

/// Splits source text into tokens.
pub fn tokenize(src: &[u8]) -> (tokens: Vec<Token>)
    ensures
        tokens@ == tokens_of(src@),
        tokens_wf(tokens@, src@.len()),
{
    let mut tokens: Vec<Token> = Vec::new();
    let mut i: usize = 0;
    loop
        invariant
            i <= src.len(),
            tokens_of(src@) == tokens@ + tokens_from(src@, i as int),
            tokens.len() <= i,
            forall|a: int| 0 <= a < tokens.len() ==> (#[trigger] tokens[a]).span.wf() && tokens[a].span.end <= i,
            forall|a: int, b: int|
                0 <= a < b < tokens.len() ==> (#[trigger] tokens[a]).span.end <= (#[trigger] tokens[b]).span.start,
        ensures
            tokens@ == tokens_of(src@),
            tokens_wf(tokens@, src@.len()),
        decreases src.len() - i,
    {
        let j = skip_trivia(src, i);
        if j >= src.len() {
            assert(tokens@ + tokens_from(src@, i as int) =~= tokens@);
            break;
        }
        let token = lex_one(src, j);
        let ghost before = tokens@;
        tokens.push(token);
        proof {
            assert(tokens_from(src@, i as int) == seq![token] + tokens_from(src@, token.span.end as int));
            assert(before + (seq![token] + tokens_from(src@, token.span.end as int)) =~= tokens@
                + tokens_from(src@, token.span.end as int));
        }
        i = token.span.end;
    }
    tokens
}

/// White space and comments end at or after where they begin, and inside the text.
pub proof fn lemma_trivia_end(s: Seq<u8>, i: int, mode: Trivia)
    requires
        0 <= i <= s.len(),
    ensures
        i <= trivia_end(s, i, mode) <= s.len(),
    decreases s.len() - i,
{
    if i < s.len() {
        match mode {
            Trivia::Code => {
                if is_space(s[i]) {
                    lemma_trivia_end(s, i + 1, Trivia::Code);
                } else if s[i] == SLASH && i + 1 < s.len() && s[i + 1] == SLASH {
                    lemma_trivia_end(s, i + 2, Trivia::Line);
                } else if s[i] == SLASH && i + 1 < s.len() && s[i + 1] == STAR {
                    lemma_trivia_end(s, i + 2, Trivia::Block);
                }
            },
            Trivia::Line => {
                if s[i] == NEWLINE {
                    lemma_trivia_end(s, i + 1, Trivia::Code);
                } else {
                    lemma_trivia_end(s, i + 1, Trivia::Line);
                }
            },
            Trivia::Block => {
                if s[i] == STAR && i + 1 < s.len() && s[i + 1] == SLASH {
                    lemma_trivia_end(s, i + 2, Trivia::Code);
                } else {
                    lemma_trivia_end(s, i + 1, Trivia::Block);
                }
            },
        }
    }
}

proof fn lemma_word_end(s: Seq<u8>, i: int)
    requires
        0 <= i <= s.len(),
    ensures
        i <= word_end(s, i) <= s.len(),
    decreases s.len() - i,
{
    if i < s.len() && is_word(s[i]) {
        lemma_word_end(s, i + 1);
    }
}

proof fn lemma_string_end(s: Seq<u8>, i: int)
    requires
        0 <= i <= s.len(),
    ensures
        i <= string_end(s, i) <= s.len(),
    decreases s.len() - i,
{
    if i < s.len() && s[i] != QUOTE {
        if s[i] == BACKSLASH {
            if i + 2 <= s.len() {
                lemma_string_end(s, i + 2);
            }
        } else {
            lemma_string_end(s, i + 1);
        }
    }
}

proof fn lemma_tick_end(s: Seq<u8>, i: int)
    requires
        0 <= i,
    ensures
        i <= s.len() ==> i <= tick_end(s, i),
        tick_end(s, i) <= s.len(),
    decreases s.len() - i,
{
    if i < s.len() && s[i] != TICK {
        lemma_tick_end(s, i + 1);
    }
}

/// A token is not empty and ends inside the text.
pub proof fn lemma_token_end(s: Seq<u8>, i: int)
    requires
        0 <= i < s.len(),
    ensures
        i < token_end(s, i) <= s.len(),
{
    lemma_word_end(s, i + 1);
    lemma_string_end(s, i + 1);
    lemma_tick_end(s, i + 3);
}

proof fn lemma_tokens_from(s: Seq<u8>, i: int)
    requires
        0 <= i <= s.len(),
        s.len() <= usize::MAX,
    ensures
        tokens_from(s, i).len() <= s.len() - i,
        forall|a: int|
            0 <= a < tokens_from(s, i).len() ==> (#[trigger] tokens_from(s, i)[a]).span.wf() && i
                <= tokens_from(s, i)[a].span.start && tokens_from(s, i)[a].span.end <= s.len(),
        forall|a: int, b: int|
            0 <= a < b < tokens_from(s, i).len() ==> (#[trigger] tokens_from(s, i)[a]).span.end <= (
            #[trigger] tokens_from(s, i)[b]).span.start,
    decreases s.len() - i,
{
    lemma_trivia_end(s, i, Trivia::Code);
    let j = trivia_end(s, i, Trivia::Code);
    if j < s.len() {
        lemma_token_end(s, j);
        let end = token_end(s, j);
        lemma_tokens_from(s, end);
        let rest = tokens_from(s, end);
        let all = tokens_from(s, i);
        assert(all == seq![token_at(s, j)] + rest);
        assert forall|a: int| 0 <= a < all.len() implies (#[trigger] all[a]).span.wf() && i
            <= all[a].span.start && all[a].span.end <= s.len() by {
            if a > 0 {
                assert(all[a] == rest[a - 1]);
            }
        }
        assert forall|a: int, b: int| 0 <= a < b < all.len() implies (#[trigger] all[a]).span.end <= (
        #[trigger] all[b]).span.start by {
            assert(all[b] == rest[b - 1]);
            if a > 0 {
                assert(all[a] == rest[a - 1]);
            }
        }
    }
}

/// The tokens of a text lie inside it, in order, and none is empty.
pub proof fn lemma_tokens_wf(s: Seq<u8>)
    requires
        s.len() <= usize::MAX,
    ensures
        tokens_wf(tokens_of(s), s.len()),
{
    lemma_tokens_from(s, 0);
}

/// `span` lies inside `s` and covers word bytes only.
pub open spec fn word_span(s: Seq<u8>, span: Span) -> bool {
    &&& span.start <= span.end <= s.len()
    &&& forall|k: int| span.start <= k < span.end ==> is_word(#[trigger] s[k])
}

/// Every token of kind `Word` covers word bytes only.
pub open spec fn words_plain(t: Seq<Token>, s: Seq<u8>) -> bool {
    forall|a: int| 0 <= a < t.len() && (#[trigger] t[a]).kind is Word ==> word_span(s, t[a].span)
}

proof fn lemma_word_run(s: Seq<u8>, i: int)
    requires
        0 <= i <= s.len(),
    ensures
        forall|k: int| i <= k < word_end(s, i) ==> is_word(#[trigger] s[k]),
    decreases s.len() - i,
{
    if i < s.len() && is_word(s[i]) {
        lemma_word_run(s, i + 1);
    }
}

proof fn lemma_tokens_words(s: Seq<u8>, i: int)
    requires
        0 <= i <= s.len(),
        s.len() <= usize::MAX,
    ensures
        words_plain(tokens_from(s, i), s),
    decreases s.len() - i,
{
    lemma_trivia_end(s, i, Trivia::Code);
    let j = trivia_end(s, i, Trivia::Code);
    if j < s.len() {
        lemma_token_end(s, j);
        let end = token_end(s, j);
        lemma_tokens_words(s, end);
        lemma_word_run(s, j + 1);
        let rest = tokens_from(s, end);
        let all = tokens_from(s, i);
        assert(all == seq![token_at(s, j)] + rest);
        assert forall|a: int| 0 <= a < all.len() && (#[trigger] all[a]).kind is Word implies word_span(
            s,
            all[a].span,
        ) by {
            if a > 0 {
                assert(all[a] == rest[a - 1]);
            }
        }
    }
}

/// The words among the tokens of a text are made of word bytes.
pub proof fn lemma_words_plain(s: Seq<u8>)
    requires
        s.len() <= usize::MAX,
    ensures
        words_plain(tokens_of(s), s),
{
    lemma_tokens_words(s, 0);
}

} // verus!
