use vstd::prelude::*;
use crate::span::{chars_of, Span, Str, StrView};

verus! {

/// The kind of bracket that opens and closes a block; `Invis` stands for the
/// top level, which has none.
#[derive(Clone, Copy, Debug, PartialEq, Eq, Structural)]
pub enum Delim {
    Parenthesis,
    Bracket,
    Brace,
    Invis,
}

/// The delimiter that a bracket character opens or closes.
pub open spec fn delim_of(c: char) -> Delim {
    if c == '(' || c == ')' {
        Delim::Parenthesis
    } else if c == '[' || c == ']' {
        Delim::Bracket
    } else if c == '{' || c == '}' {
        Delim::Brace
    } else {
        Delim::Invis
    }
}

impl From<char> for Delim {
    fn from(c: char) -> (r: Delim) {
        if c == '(' || c == ')' {
            Delim::Parenthesis
        } else if c == '[' || c == ']' {
            Delim::Bracket
        } else if c == '{' || c == '}' {
            Delim::Brace
        } else {
            Delim::Invis
        }
    }
}

impl vstd::std_specs::convert::FromSpecImpl<char> for Delim {
    open spec fn obeys_from_spec() -> bool {
        true
    }

    open spec fn from_spec(c: char) -> Delim {
        delim_of(c)
    }
}

/// The delimiter that a one-character bracket string opens or closes.
pub open spec fn delim_of_str(s: Seq<char>) -> Delim {
    if s.len() == 1 {
        delim_of(s[0])
    } else {
        Delim::Invis
    }
}

impl<'a> From<&'a str> for Delim {
    fn from(s: &'a str) -> (r: Delim) {
        let cs = chars_of(s);
        if cs.len() == 1 {
            Delim::from(cs[0])
        } else {
            Delim::Invis
        }
    }
}

impl<'a> vstd::std_specs::convert::FromSpecImpl<&'a str> for Delim {
    open spec fn obeys_from_spec() -> bool {
        true
    }

    open spec fn from_spec(s: &'a str) -> Delim {
        delim_of_str(s@)
    }
}

#[derive(Clone, Copy, Debug, PartialEq, Eq, Structural)]
pub enum LitKind {
    Str,
    Char,
    Int,
}

/// Whether a punctuation character is directly followed by another one.
#[derive(Clone, Copy, Debug, PartialEq, Eq, Structural)]
pub enum Spacing {
    Alone,
    Together,
}

/// Why a scan failed, with the spans involved.
#[derive(Clone, Copy, Debug, PartialEq, Eq, Structural)]
pub enum LexerError {
    UnexpectedToken(Span),
    UnknownToken(Span),
    UnexpectedEof(Span),
    UnmatchedDelimiter { start: Span, end: Span, expected: Delim },
    UnknownChar(Span),
}

impl LexerError {
    /// The span that the error points at; for an unmatched delimiter, the
    /// stretch from the opening bracket to where the close was expected.
    pub fn span(&self) -> (r: Span)
        ensures
            r == match *self {
                LexerError::UnexpectedToken(s) => s,
                LexerError::UnknownToken(s) => s,
                LexerError::UnexpectedEof(s) => s,
                LexerError::UnknownChar(s) => s,
                LexerError::UnmatchedDelimiter { start, end, .. } => Span {
                    start: if start.start <= end.start { start.start } else { end.start },
                    end: if start.end >= end.end { start.end } else { end.end },
                },
            },
    {
        match self {
            LexerError::UnexpectedToken(s) => *s,
            LexerError::UnknownToken(s) => *s,
            LexerError::UnexpectedEof(s) => *s,
            LexerError::UnknownChar(s) => *s,
            LexerError::UnmatchedDelimiter { start, end, .. } => start.join(*end),
        }
    }
}

/// What a token denotes, with the source text of each of its parts.
pub enum TokenModel {
    Lit {
        span: Span,
        kind: LitKind,
        value: StrView,
        prefix: Option<StrView>,
        suffix: Option<StrView>,
    },
    Punct { value: StrView, spacing: Spacing },
    Block { span: Span, delim: Delim, tokens: Seq<TokenModel> },
    Ident { span: Span, value: StrView },
}

pub open spec fn opt_view(o: Option<Str>) -> Option<StrView> {
    match o {
        Some(s) => Some(s@),
        None => None,
    }
}

/// The model of one token, its nested tokens included.
pub open spec fn token_model(t: Token) -> TokenModel
    decreases t,
{
    match t {
        Token::Lit(l) => TokenModel::Lit {
            span: l.span,
            kind: l.kind,
            value: l.value@,
            prefix: opt_view(l.prefix),
            suffix: opt_view(l.suffix),
        },
        Token::Punct(p) => TokenModel::Punct { value: p.value@, spacing: p.spacing },
        Token::Block(b) => TokenModel::Block {
            span: b.span,
            delim: b.delim,
            tokens: Seq::new(
                b.tokens.tokens@.len(),
                |i: int|
                    if 0 <= i < b.tokens.tokens@.len() {
                        token_model(b.tokens.tokens@[i])
                    } else {
                        TokenModel::Ident { span: b.span, value: StrView { span: b.span, text: Seq::empty() } }
                    },
            ),
        },
        Token::Ident(id) => TokenModel::Ident { span: id.span, value: id.value@ },
    }
}

/// The models of a sequence of tokens.
pub open spec fn tokens_model(ts: Seq<Token>) -> Seq<TokenModel> {
    Seq::new(ts.len(), |i: int| token_model(ts[i]))
}

pub proof fn lemma_tokens_model_push(ts: Seq<Token>, t: Token)
    ensures
        tokens_model(ts.push(t)) == tokens_model(ts).push(token_model(t)),
{
    assert(tokens_model(ts.push(t)) =~= tokens_model(ts).push(token_model(t)));
}

pub proof fn lemma_block_model(b: Block)
    ensures
        token_model(Token::Block(b)) == (TokenModel::Block {
            span: b.span,
            delim: b.delim,
            tokens: tokens_model(b.tokens.tokens@),
        }),
{
    let m = token_model(Token::Block(b));
    assert(m->tokens =~= tokens_model(b.tokens.tokens@));
}

/// An ordered sequence of tokens.
#[derive(Debug)]
pub struct TokenStream {
    pub tokens: Vec<Token>,
    pub idx: usize,
}

impl View for TokenStream {
    type V = Seq<TokenModel>;

    open spec fn view(&self) -> Seq<TokenModel> {
        tokens_model(self.tokens@)
    }
}

impl TokenStream {
    pub fn new(tokens: Vec<Token>) -> (r: TokenStream)
        ensures
            r.tokens@ == tokens@,
            r@ == tokens_model(tokens@),
    {
        TokenStream { tokens, idx: 0 }
    }

    /// A cursor at the first token.
    pub fn cursor(&self) -> (r: Cursor<'_>)
        ensures
            r.tokens@ == self.tokens@,
            r.idx == 0,
    {
        Cursor { tokens: self.tokens.as_slice(), idx: 0 }
    }
}

/// A read-only position in a sequence of tokens.
#[derive(Clone, Copy, Debug)]
pub struct Cursor<'a> {
    pub tokens: &'a [Token],
    pub idx: usize,
}

/// The token at `k`, if there is one.
pub open spec fn token_at<'a>(ts: &'a [Token], k: int) -> Option<&'a Token> {
    if 0 <= k < ts@.len() {
        Some(&ts@[k])
    } else {
        None
    }
}

impl<'a> Cursor<'a> {
    /// The token at the cursor.
    pub fn current(&self) -> (r: Option<&'a Token>)
        ensures
            r == token_at(self.tokens, self.idx as int),
    {
        if self.idx < self.tokens.len() {
            Some(&self.tokens[self.idx])
        } else {
            None
        }
    }

    /// The token at the cursor; the cursor then moves one token on.
    pub fn next(&mut self) -> (r: Option<&'a Token>)
        ensures
            r == token_at(old(self).tokens, old(self).idx as int),
            final(self).tokens == old(self).tokens,
            final(self).idx as int == if old(self).idx < usize::MAX {
                old(self).idx + 1
            } else {
                old(self).idx as int
            },
    {
        let token = self.current();
        if self.idx < usize::MAX {
            self.idx = self.idx + 1;
        }
        token
    }

    /// The token one place past the cursor.
    pub fn peek(&self) -> (r: Option<&'a Token>)
        ensures
            r == token_at(self.tokens, self.idx + 1),
    {
        self.peek_n(1)
    }

    /// The token `n` places past the cursor.
    pub fn peek_n(&self, n: usize) -> (r: Option<&'a Token>)
        ensures
            r == token_at(self.tokens, self.idx + n),
    {
        if n < self.tokens.len() && self.idx < self.tokens.len() - n {
            Some(&self.tokens[self.idx + n])
        } else {
            None
        }
    }

    /// Whether the cursor has moved past the last token.
    pub fn is_empty(&self) -> (r: bool)
        ensures
            r == (self.idx >= self.tokens@.len()),
    {
        self.idx >= self.tokens.len()
    }
}

#[derive(Debug)]
pub enum Token {
    Lit(Lit),
    Punct(Punct),
    Block(Block),
    Ident(Ident),
}

/// The span of a token as a whole.
pub open spec fn token_span(t: Token) -> Span {
    match t {
        Token::Lit(l) => l.span,
        Token::Punct(p) => p.value.span,
        Token::Block(b) => b.span,
        Token::Ident(id) => id.span,
    }
}

impl Token {
    pub fn span(&self) -> (r: Span)
        ensures
            r == token_span(*self),
    {
        match self {
            Token::Lit(lit) => lit.span(),
            Token::Punct(punct) => punct.span(),
            Token::Block(block) => block.span(),
            Token::Ident(ident) => ident.span(),
        }
    }

    pub fn is_lit(&self) -> (r: bool)
        ensures
            r == (*self is Lit),
    {
        match self {
            Token::Lit(_) => true,
            _ => false,
        }
    }

    pub fn as_lit(&self) -> (r: Option<&Lit>)
        ensures
            match *self {
                Token::Lit(l) => r == Some(&l),
                _ => r is None,
            },
    {
        match self {
            Token::Lit(lit) => Some(lit),
            _ => None,
        }
    }

    pub fn is_punct(&self) -> (r: bool)
        ensures
            r == (*self is Punct),
    {
        match self {
            Token::Punct(_) => true,
            _ => false,
        }
    }

    pub fn as_punct(&self) -> (r: Option<&Punct>)
        ensures
            match *self {
                Token::Punct(p) => r == Some(&p),
                _ => r is None,
            },
    {
        match self {
            Token::Punct(punct) => Some(punct),
            _ => None,
        }
    }

    pub fn is_block(&self) -> (r: bool)
        ensures
            r == (*self is Block),
    {
        match self {
            Token::Block(_) => true,
            _ => false,
        }
    }

    pub fn as_block(&self) -> (r: Option<&Block>)
        ensures
            match *self {
                Token::Block(b) => r == Some(&b),
                _ => r is None,
            },
    {
        match self {
            Token::Block(block) => Some(block),
            _ => None,
        }
    }

    pub fn is_ident(&self) -> (r: bool)
        ensures
            r == (*self is Ident),
    {
        match self {
            Token::Ident(_) => true,
            _ => false,
        }
    }

    pub fn as_ident(&self) -> (r: Option<&Ident>)
        ensures
            match *self {
                Token::Ident(id) => r == Some(&id),
                _ => r is None,
            },
    {
        match self {
            Token::Ident(ident) => Some(ident),
            _ => None,
        }
    }
}

/// A literal: its whole span, its kind, its value, and the identifier-like
/// text glued before and after it, if any.
#[derive(Debug)]
pub struct Lit {
    pub span: Span,
    pub kind: LitKind,
    pub value: Str,
    pub prefix: Option<Str>,
    pub suffix: Option<Str>,
}

impl Lit {
    pub fn new(span: Span, kind: LitKind, value: Str, prefix: Option<Str>, suffix: Option<Str>) -> (r: Lit)
        ensures
            r.span == span,
            r.kind == kind,
            r.value == value,
            r.prefix == prefix,
            r.suffix == suffix,
    {
        Lit { span, kind, value, prefix, suffix }
    }

    pub fn span(&self) -> (r: Span)
        ensures
            r == self.span,
    {
        self.span
    }

    pub fn kind(&self) -> (r: LitKind)
        ensures
            r == self.kind,
    {
        self.kind
    }

    pub fn value(&self) -> (r: &Str)
        ensures
            r == &self.value,
    {
        &self.value
    }

    pub fn prefix(&self) -> (r: Option<&Str>)
        ensures
            match self.prefix {
                Some(p) => r == Some(&p),
                None => r is None,
            },
    {
        match &self.prefix {
            Some(p) => Some(p),
            None => None,
        }
    }

    pub fn suffix(&self) -> (r: Option<&Str>)
        ensures
            match self.suffix {
                Some(s) => r == Some(&s),
                None => r is None,
            },
    {
        match &self.suffix {
            Some(s) => Some(s),
            None => None,
        }
    }
}

/// A single punctuation character.
#[derive(Debug)]
pub struct Punct {
    pub value: Str,
    pub spacing: Spacing,
}

impl Punct {
    pub fn new(value: Str, spacing: Spacing) -> (r: Punct)
        ensures
            r.value == value,
            r.spacing == spacing,
    {
        Punct { value, spacing }
    }

    pub fn span(&self) -> (r: Span)
        ensures
            r == self.value.span,
    {
        self.value.span
    }

    pub fn value(&self) -> (r: &Str)
        ensures
            r == &self.value,
    {
        &self.value
    }

    pub fn spacing(&self) -> (r: Spacing)
        ensures
            r == self.spacing,
    {
        self.spacing
    }
}

/// A bracketed group: the span from the opening to the closing bracket, and
/// the tokens between them.
#[derive(Debug)]
pub struct Block {
    pub span: Span,
    pub delim: Delim,
    pub tokens: TokenStream,
}

impl Block {
    pub fn new(span: Span, delim: Delim, tokens: TokenStream) -> (r: Block)
        ensures
            r.span == span,
            r.delim == delim,
            r.tokens == tokens,
    {
        Block { span, delim, tokens }
    }

    pub fn span(&self) -> (r: Span)
        ensures
            r == self.span,
    {
        self.span
    }

    pub fn delim(&self) -> (r: Delim)
        ensures
            r == self.delim,
    {
        self.delim
    }

    pub fn tokens(&self) -> (r: &TokenStream)
        ensures
            r == &self.tokens,
    {
        &self.tokens
    }
}

#[derive(Debug)]
pub struct Ident {
    pub span: Span,
    pub value: Str,
}

impl Ident {
    pub fn new(span: Span, value: Str) -> (r: Ident)
        ensures
            r.span == span,
            r.value == value,
    {
        Ident { span, value }
    }

    pub fn span(&self) -> (r: Span)
        ensures
            r == self.span,
    {
        self.span
    }

    pub fn value(&self) -> (r: &Str)
        ensures
            r == &self.value,
    {
        &self.value
    }
}

} // verus!
