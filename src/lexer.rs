use vstd::prelude::*;
use crate::span::{byte_off, byte_offsets, chars_between, chars_of, span_of, str_at, Span, Str, StrView};
use crate::token::{
    delim_of, lemma_block_model, lemma_tokens_model_push, token_model, tokens_model, Block, Delim, Ident, LexerError,
    Lit, LitKind, Punct, Spacing, Token, TokenModel, TokenStream,
};

verus! {

// Character classes.

pub open spec fn is_punct_char(c: char) -> bool {
    c == '&' || c == '=' || c == '@' || c == '^' || c == ':' || c == ',' || c == '$' || c == '.'
        || c == '>' || c == '<' || c == '-' || c == '+' || c == '!' || c == '|' || c == '%'
        || c == '#' || c == '?' || c == ';' || c == '/' || c == '*' || c == '~' || c == '`'
        || c == '\\'
}

pub open spec fn is_space_char(c: char) -> bool {
    c == ' ' || c == '\t' || c == '\r' || c == '\n'
}

pub open spec fn is_open_char(c: char) -> bool {
    c == '(' || c == '[' || c == '{'
}

pub open spec fn is_close_char(c: char) -> bool {
    c == ')' || c == ']' || c == '}'
}

pub open spec fn is_letter_char(c: char) -> bool {
    ('a' <= c && c <= 'z') || ('A' <= c && c <= 'Z')
}

pub open spec fn is_digit_char(c: char) -> bool {
    '0' <= c && c <= '9'
}

/// A character that may continue an identifier.
pub open spec fn is_word_char(c: char) -> bool {
    is_letter_char(c) || is_digit_char(c) || c == '_'
}

pub open spec fn is_quote_char(c: char) -> bool {
    c == '"' || c == '\''
}

/// The character before `pos`, or a space at the very start.
pub open spec fn prev_char(cs: Seq<char>, pos: int) -> char {
    if 0 < pos <= cs.len() {
        cs[pos - 1]
    } else {
        ' '
    }
}

/// Whether a literal or an identifier starts at `pos`: a letter, `_`, a
/// digit, or a quote that no backslash escapes.
pub open spec fn starts_lit(cs: Seq<char>, pos: int) -> bool {
    is_word_char(cs[pos]) || (is_quote_char(cs[pos]) && prev_char(cs, pos) != '\\')
}

// How far runs of characters reach.

/// The first offset at or after `k` that holds no identifier character.
pub open spec fn word_end(cs: Seq<char>, k: int) -> int
    decreases cs.len() - k,
{
    if 0 <= k < cs.len() && is_word_char(cs[k]) {
        word_end(cs, k + 1)
    } else {
        k
    }
}

/// The first offset at or after `k` that holds neither a digit nor `_`.
pub open spec fn digits_end(cs: Seq<char>, k: int) -> int
    decreases cs.len() - k,
{
    if 0 <= k < cs.len() && (is_digit_char(cs[k]) || cs[k] == '_') {
        digits_end(cs, k + 1)
    } else {
        k
    }
}

/// The first offset at or after `k` that holds no `#`.
pub open spec fn hash_end(cs: Seq<char>, k: int) -> int
    decreases cs.len() - k,
{
    if 0 <= k < cs.len() && cs[k] == '#' {
        hash_end(cs, k + 1)
    } else {
        k
    }
}

/// The first offset at or after `k` that holds the quote `q` with no
/// backslash right before it; `cs.len()` if there is none.
pub open spec fn quote_close(cs: Seq<char>, k: int, q: char) -> int
    decreases cs.len() - k,
{
    if !(0 < k < cs.len()) {
        cs.len() as int
    } else if cs[k] == q && cs[k - 1] != '\\' {
        k
    } else {
        quote_close(cs, k + 1, q)
    }
}

/// The first offset at or after `k` that holds a `"` followed by exactly
/// `h` hashes; `cs.len()` if there is none.
pub open spec fn raw_close(cs: Seq<char>, k: int, h: int) -> int
    decreases cs.len() - k,
{
    if !(0 <= k < cs.len()) {
        cs.len() as int
    } else if cs[k] == '"' && hash_end(cs, k + 1) - (k + 1) == h {
        k
    } else {
        raw_close(cs, k + 1, h)
    }
}

/// The identifier-like text from `k` to `e - 1`, if that is not empty.
pub open spec fn opt_str_at(cs: Seq<char>, k: int, e: int) -> Option<StrView> {
    if e > k {
        Some(str_at(cs, span_of(k, e - 1)))
    } else {
        None
    }
}

/// The end of input, as an error span.
pub open spec fn eof_span(cs: Seq<char>) -> Span {
    span_of(cs.len() as int, cs.len() as int)
}

// Literals and identifiers.

/// A string or char literal whose opening quote stands at `p`, the token
/// starting at `i` with the prefix `prefix`; with the offset after it.
pub open spec fn lex_quoted(cs: Seq<char>, i: int, p: int, prefix: Option<StrView>) -> Result<
    (TokenModel, int),
    LexerError,
> {
    let q = cs[p];
    let j = quote_close(cs, p + 1, q);
    if j >= cs.len() {
        Err(LexerError::UnexpectedEof(eof_span(cs)))
    } else {
        let se = word_end(cs, j + 1);
        Ok(
            (
                TokenModel::Lit {
                    span: span_of(i, se - 1),
                    kind: if q == '"' {
                        LitKind::Str
                    } else {
                        LitKind::Char
                    },
                    value: str_at(cs, span_of(p + 1, j - 1)),
                    prefix,
                    suffix: opt_str_at(cs, j + 1, se),
                },
                se,
            ),
        )
    }
}

/// A raw identifier or raw string whose first `#` stands at `p`, the token
/// starting at `i` with the prefix `prefix`; with the offset after it.
pub open spec fn lex_raw(cs: Seq<char>, i: int, p: int, prefix: Option<StrView>) -> Result<
    (TokenModel, int),
    LexerError,
> {
    let he = hash_end(cs, p);
    let h = he - p;
    if he >= cs.len() {
        Err(LexerError::UnexpectedEof(eof_span(cs)))
    } else if is_letter_char(cs[he]) {
        let e = word_end(cs, he + 1);
        let sp = span_of(i, e - 1);
        Ok(
            (
                TokenModel::Lit {
                    span: sp,
                    kind: LitKind::Str,
                    value: str_at(cs, sp),
                    prefix: None,
                    suffix: None,
                },
                e,
            ),
        )
    } else if cs[he] == '"' {
        let j = raw_close(cs, he + 1, h);
        if j >= cs.len() {
            Err(LexerError::UnexpectedEof(eof_span(cs)))
        } else {
            let close_end = j + h;
            let se = word_end(cs, close_end + 1);
            Ok(
                (
                    TokenModel::Lit {
                        span: span_of(i, se - 1),
                        kind: LitKind::Str,
                        value: str_at(cs, span_of(i, close_end)),
                        prefix,
                        suffix: opt_str_at(cs, close_end + 1, se),
                    },
                    se,
                ),
            )
        }
    } else {
        Err(LexerError::UnknownToken(span_of(i, he)))
    }
}

/// The literal or identifier that starts at `i`, with the offset after it.
pub open spec fn lex_lit(cs: Seq<char>, i: int) -> Result<(TokenModel, int), LexerError> {
    let c = cs[i];
    let p = if is_letter_char(c) || c == '_' {
        word_end(cs, i + 1)
    } else if is_digit_char(c) {
        digits_end(cs, i + 1)
    } else {
        i
    };
    let prefix = opt_str_at(cs, i, p);
    let sp = span_of(i, p - 1);
    let bare = if is_digit_char(c) {
        TokenModel::Lit { span: sp, kind: LitKind::Int, value: str_at(cs, sp), prefix: None, suffix: None }
    } else {
        TokenModel::Ident { span: sp, value: str_at(cs, sp) }
    };
    if p >= cs.len() {
        Ok((bare, p))
    } else if cs[p] == '#' {
        lex_raw(cs, i, p, prefix)
    } else if is_quote_char(cs[p]) {
        lex_quoted(cs, i, p, prefix)
    } else if is_letter_char(cs[p]) {
        let se = word_end(cs, p + 1);
        Ok(
            (
                TokenModel::Lit {
                    span: span_of(i, se - 1),
                    kind: LitKind::Int,
                    value: str_at(cs, sp),
                    prefix: None,
                    suffix: Some(str_at(cs, span_of(p, se - 1))),
                },
                se,
            ),
        )
    } else {
        Ok((bare, p))
    }
}

// The scanner.

/// One open delimiter: its kind, its offset, and the tokens seen inside it
/// so far.
pub type FrameModel = (Delim, usize, Seq<TokenModel>);

/// The stack with `t` added to the innermost frame.
pub open spec fn push_tok(stack: Seq<FrameModel>, t: TokenModel) -> Seq<FrameModel> {
    let top = stack.last();
    stack.update(stack.len() - 1, (top.0, top.1, top.2.push(t)))
}

/// The punctuation token at `pos`.
pub open spec fn punct_at(cs: Seq<char>, pos: int) -> TokenModel {
    TokenModel::Punct {
        value: str_at(cs, span_of(pos, pos)),
        spacing: if pos + 1 < cs.len() && is_punct_char(cs[pos + 1]) {
            Spacing::Together
        } else {
            Spacing::Alone
        },
    }
}

/// What the scan gives once the input is used up.
pub open spec fn finish(cs: Seq<char>, stack: Seq<FrameModel>) -> Result<Seq<TokenModel>, LexerError> {
    if stack.len() > 1 {
        let top = stack.last();
        Err(
            LexerError::UnmatchedDelimiter {
                start: span_of(top.1 as int, top.1 as int),
                end: eof_span(cs),
                expected: top.0,
            },
        )
    } else {
        Ok(stack.last().2)
    }
}

/// The result of scanning `cs` from `pos` with the open delimiters `stack`.
pub open spec fn scan_from(cs: Seq<char>, pos: int, stack: Seq<FrameModel>) -> Result<
    Seq<TokenModel>,
    LexerError,
>
    decreases cs.len() - pos,
{
    if !(0 <= pos < cs.len()) {
        finish(cs, stack)
    } else {
        let c = cs[pos];
        if is_open_char(c) {
            scan_from(cs, pos + 1, stack.push((delim_of(c), pos as usize, Seq::empty())))
        } else if is_close_char(c) {
            let top = stack.last();
            if stack.len() < 2 || top.0 != delim_of(c) {
                Err(
                    LexerError::UnmatchedDelimiter {
                        start: span_of(top.1 as int, top.1 as int),
                        end: span_of(pos, pos),
                        expected: top.0,
                    },
                )
            } else {
                let block = TokenModel::Block {
                    span: span_of(top.1 as int, pos),
                    delim: top.0,
                    tokens: top.2,
                };
                scan_from(cs, pos + 1, push_tok(stack.drop_last(), block))
            }
        } else if is_punct_char(c) {
            scan_from(cs, pos + 1, push_tok(stack, punct_at(cs, pos)))
        } else if is_space_char(c) {
            scan_from(cs, pos + 1, stack)
        } else if starts_lit(cs, pos) {
            // A literal always moves the scan on (see `laws::lemma_lex_lit`); the
            // test keeps the recursion well founded and is never false.
            match lex_lit(cs, pos) {
                Ok((t, n)) => if pos < n && n <= cs.len() {
                    scan_from(cs, n, push_tok(stack, t))
                } else {
                    Err(LexerError::UnexpectedToken(span_of(pos, pos)))
                },
                Err(e) => Err(e),
            }
        } else {
            Err(LexerError::UnknownChar(span_of(pos, pos)))
        }
    }
}

/// The stack that a scan starts with: the top level alone.
pub open spec fn initial_stack() -> Seq<FrameModel> {
    seq![(Delim::Invis, 0usize, Seq::empty())]
}

/// The token tree of `cs`, or the first error in it, with spans in
/// character indices of `cs` (see `scan_bytes` for byte offsets).
pub open spec fn scan(cs: Seq<char>) -> Result<Seq<TokenModel>, LexerError> {
    scan_from(cs, 0, initial_stack())
}


// Spans in bytes.

/// `sp`, whose ends are character indices of `cs`, with each end moved to
/// the byte offset at which that character starts.
pub open spec fn bspan(cs: Seq<char>, sp: Span) -> Span {
    Span { start: byte_off(cs, sp.start as int) as usize, end: byte_off(cs, sp.end as int) as usize }
}

pub open spec fn bstr(cs: Seq<char>, v: StrView) -> StrView {
    StrView { span: bspan(cs, v.span), text: v.text }
}

pub open spec fn bopt(cs: Seq<char>, o: Option<StrView>) -> Option<StrView> {
    match o {
        Some(v) => Some(bstr(cs, v)),
        None => None,
    }
}

/// `t` with every span, nested ones included, in byte offsets.
pub open spec fn btoken(cs: Seq<char>, t: TokenModel) -> TokenModel
    decreases t,
{
    match t {
        TokenModel::Lit { span, kind, value, prefix, suffix } => TokenModel::Lit {
            span: bspan(cs, span),
            kind,
            value: bstr(cs, value),
            prefix: bopt(cs, prefix),
            suffix: bopt(cs, suffix),
        },
        TokenModel::Punct { value, spacing } => TokenModel::Punct { value: bstr(cs, value), spacing },
        TokenModel::Block { span, delim, tokens } => TokenModel::Block {
            span: bspan(cs, span),
            delim,
            tokens: Seq::new(
                tokens.len(),
                |i: int|
                    if 0 <= i < tokens.len() {
                        btoken(cs, tokens[i])
                    } else {
                        TokenModel::Block { span, delim, tokens: Seq::empty() }
                    },
            ),
        },
        TokenModel::Ident { span, value } => TokenModel::Ident { span: bspan(cs, span), value: bstr(cs, value) },
    }
}

pub open spec fn btokens(cs: Seq<char>, ts: Seq<TokenModel>) -> Seq<TokenModel> {
    Seq::new(ts.len(), |i: int| btoken(cs, ts[i]))
}

/// `e` with its spans in byte offsets.
pub open spec fn berror(cs: Seq<char>, e: LexerError) -> LexerError {
    match e {
        LexerError::UnexpectedToken(s) => LexerError::UnexpectedToken(bspan(cs, s)),
        LexerError::UnknownToken(s) => LexerError::UnknownToken(bspan(cs, s)),
        LexerError::UnexpectedEof(s) => LexerError::UnexpectedEof(bspan(cs, s)),
        LexerError::UnmatchedDelimiter { start, end, expected } => LexerError::UnmatchedDelimiter {
            start: bspan(cs, start),
            end: bspan(cs, end),
            expected,
        },
        LexerError::UnknownChar(s) => LexerError::UnknownChar(bspan(cs, s)),
    }
}

/// The token tree of `cs`, or its first error, with every span in byte
/// offsets into the UTF-8 text; a span's `end` is the first byte of the last
/// character it covers.
pub open spec fn scan_bytes(cs: Seq<char>) -> Result<Seq<TokenModel>, LexerError> {
    match scan(cs) {
        Ok(ts) => Ok(btokens(cs, ts)),
        Err(e) => Err(berror(cs, e)),
    }
}

pub open spec fn blit(cs: Seq<char>, r: Result<(TokenModel, int), LexerError>) -> Result<(TokenModel, int), LexerError> {
    match r {
        Ok((t, n)) => Ok((btoken(cs, t), n)),
        Err(e) => Err(berror(cs, e)),
    }
}

proof fn lemma_btokens_push(cs: Seq<char>, ts: Seq<TokenModel>, t: TokenModel)
    ensures
        btokens(cs, ts.push(t)) == btokens(cs, ts).push(btoken(cs, t)),
{
    assert(btokens(cs, ts.push(t)) =~= btokens(cs, ts).push(btoken(cs, t)));
}

pub proof fn lemma_bblock(cs: Seq<char>, span: Span, delim: Delim, tokens: Seq<TokenModel>)
    ensures
        btoken(cs, TokenModel::Block { span, delim, tokens }) == (TokenModel::Block {
            span: bspan(cs, span),
            delim,
            tokens: btokens(cs, tokens),
        }),
{
    let m = btoken(cs, TokenModel::Block { span, delim, tokens });
    assert(m->tokens =~= btokens(cs, tokens));
}

// Executable scanner.

/// The model of what a sub-lexer returns.
pub open spec fn lit_result(r: Result<(Token, usize), LexerError>) -> Result<(TokenModel, int), LexerError> {
    match r {
        Ok((t, n)) => Ok((token_model(t), n as int)),
        Err(e) => Err(e),
    }
}

/// `offs` holds the byte offset of every character of `cs` and of its end.
pub open spec fn offsets_of(cs: Seq<char>, offs: Seq<usize>) -> bool {
    &&& offs.len() == cs.len() + 1
    &&& forall|k: int| 0 <= k <= cs.len() ==> offs[k] == byte_off(cs, k)
}

/// An open delimiter while scanning; `start` is a character index.
struct Frame {
    delim: Delim,
    start: usize,
    tokens: Vec<Token>,
}

spec fn frame_model(f: Frame) -> FrameModel {
    (f.delim, f.start, tokens_model(f.tokens@))
}

spec fn stack_model(s: Seq<Frame>) -> Seq<FrameModel> {
    Seq::new(s.len(), |i: int| frame_model(s[i]))
}

spec fn bstack(cs: Seq<char>, st: Seq<FrameModel>) -> Seq<FrameModel> {
    Seq::new(st.len(), |i: int| (st[i].0, st[i].1, btokens(cs, st[i].2)))
}

proof fn lemma_bstack_push_tok(cs: Seq<char>, st: Seq<FrameModel>, t: TokenModel)
    requires
        st.len() >= 1,
    ensures
        bstack(cs, push_tok(st, t)) == push_tok(bstack(cs, st), btoken(cs, t)),
{
    lemma_btokens_push(cs, st.last().2, t);
    assert(bstack(cs, push_tok(st, t)) =~= push_tok(bstack(cs, st), btoken(cs, t)));
}

/// Adds `t` to the innermost frame.
fn push_token(stack: &mut Vec<Frame>, t: Token)
    requires
        old(stack)@.len() >= 1,
    ensures
        final(stack)@.len() == old(stack)@.len(),
        forall|f: int| 0 <= f < old(stack)@.len() ==> (#[trigger] final(stack)@[f]).start == old(stack)@[f].start,
        stack_model(final(stack)@) == push_tok(stack_model(old(stack)@), token_model(t)),
{
    let ghost t_model = token_model(t);
    let mut top = stack.pop().unwrap();
    let ghost old_tokens = top.tokens@;
    top.tokens.push(t);
    proof {
        lemma_tokens_model_push(old_tokens, t);
    }
    stack.push(top);
    assert(stack_model(stack@) =~= push_tok(stack_model(old(stack)@), t_model));
    assert(forall|f: int| 0 <= f < old(stack)@.len() ==> #[trigger] stack_model(stack@)[f].1 == stack_model(old(stack)@)[f].1);
}

/// The characters `cs[a..=b]` with their span in bytes.
fn text_at(cs: &Vec<char>, offs: &Vec<usize>, a: usize, b: usize) -> (r: Str)
    requires
        a <= b + 1 <= cs@.len(),
        offsets_of(cs@, offs@),
    ensures
        r@ == bstr(cs@, str_at(cs@, span_of(a as int, b as int))),
{
    let value = chars_between(cs, a, b);
    Str { span: Span::new(offs[a], offs[b]), value }
}

impl TokenStream {
    fn is_punct(c: char) -> (r: bool)
        ensures
            r == is_punct_char(c),
    {
        c == '&' || c == '=' || c == '@' || c == '^' || c == ':' || c == ',' || c == '$' || c == '.'
            || c == '>' || c == '<' || c == '-' || c == '+' || c == '!' || c == '|' || c == '%'
            || c == '#' || c == '?' || c == ';' || c == '/' || c == '*' || c == '~' || c == '`'
            || c == '\\'
    }

    fn is_whitespace(c: char) -> (r: bool)
        ensures
            r == is_space_char(c),
    {
        c == ' ' || c == '\t' || c == '\r' || c == '\n'
    }

    fn is_open_delim(c: char) -> (r: bool)
        ensures
            r == is_open_char(c),
    {
        c == '(' || c == '[' || c == '{'
    }

    fn is_close_delim(c: char) -> (r: bool)
        ensures
            r == is_close_char(c),
    {
        c == ')' || c == ']' || c == '}'
    }

    fn is_letter(c: char) -> (r: bool)
        ensures
            r == is_letter_char(c),
    {
        ('a' <= c && c <= 'z') || ('A' <= c && c <= 'Z')
    }

    fn is_num(c: char) -> (r: bool)
        ensures
            r == is_digit_char(c),
    {
        '0' <= c && c <= '9'
    }

    fn is_word(c: char) -> (r: bool)
        ensures
            r == is_word_char(c),
    {
        Self::is_letter(c) || Self::is_num(c) || c == '_'
    }

    fn scan_word(cs: &Vec<char>, k: usize) -> (r: usize)
        requires
            k <= cs@.len(),
        ensures
            r as int == word_end(cs@, k as int),
            k <= r <= cs@.len(),
    {
        let mut j: usize = k;
        while j < cs.len() && Self::is_word(cs[j])
            invariant
                k <= j <= cs@.len(),
                word_end(cs@, j as int) == word_end(cs@, k as int),
            decreases cs@.len() - j,
        {
            j += 1;
        }
        j
    }

    fn scan_digits(cs: &Vec<char>, k: usize) -> (r: usize)
        requires
            k <= cs@.len(),
        ensures
            r as int == digits_end(cs@, k as int),
            k <= r <= cs@.len(),
    {
        let mut j: usize = k;
        while j < cs.len() && (Self::is_num(cs[j]) || cs[j] == '_')
            invariant
                k <= j <= cs@.len(),
                digits_end(cs@, j as int) == digits_end(cs@, k as int),
            decreases cs@.len() - j,
        {
            j += 1;
        }
        j
    }

    fn scan_hashes(cs: &Vec<char>, k: usize) -> (r: usize)
        requires
            k <= cs@.len(),
        ensures
            r as int == hash_end(cs@, k as int),
            k <= r <= cs@.len(),
    {
        let mut j: usize = k;
        while j < cs.len() && cs[j] == '#'
            invariant
                k <= j <= cs@.len(),
                hash_end(cs@, j as int) == hash_end(cs@, k as int),
            decreases cs@.len() - j,
        {
            j += 1;
        }
        j
    }

    fn find_quote_close(cs: &Vec<char>, k: usize, q: char) -> (r: usize)
        requires
            1 <= k <= cs@.len(),
        ensures
            r as int == quote_close(cs@, k as int, q),
            k <= r <= cs@.len(),
    {
        let mut j: usize = k;
        while j < cs.len()
            invariant
                1 <= k <= j <= cs@.len(),
                quote_close(cs@, j as int, q) == quote_close(cs@, k as int, q),
            decreases cs@.len() - j,
        {
            if cs[j] == q && cs[j - 1] != '\\' {
                return j;
            }
            j += 1;
        }
        j
    }

    fn find_raw_close(cs: &Vec<char>, k: usize, h: usize) -> (r: usize)
        requires
            k <= cs@.len(),
        ensures
            r as int == raw_close(cs@, k as int, h as int),
            k <= r <= cs@.len(),
            r < cs@.len() ==> r + 1 + h <= cs@.len(),
    {
        let mut j: usize = k;
        while j < cs.len()
            invariant
                k <= j <= cs@.len(),
                raw_close(cs@, j as int, h as int) == raw_close(cs@, k as int, h as int),
            decreases cs@.len() - j,
        {
            if cs[j] == '"' {
                let e = Self::scan_hashes(cs, j + 1);
                if e - (j + 1) == h {
                    return j;
                }
            }
            j += 1;
        }
        j
    }

    /// The identifier-like text from `k` to `e - 1`, copied, if not empty.
    fn opt_str(cs: &Vec<char>, offs: &Vec<usize>, k: usize, e: usize) -> (r: Option<Str>)
        requires
            k <= e <= cs@.len(),
            offsets_of(cs@, offs@),
        ensures
            crate::token::opt_view(r) == bopt(cs@, opt_str_at(cs@, k as int, e as int)),
    {
        if e > k {
            Some(text_at(cs, offs, k, e - 1))
        } else {
            None
        }
    }

    fn lex_quoted(cs: &Vec<char>, offs: &Vec<usize>, i: usize, p: usize, prefix: Option<Str>) -> (r: Result<(Token, usize), LexerError>)
        requires
            i <= p < cs@.len(),
            offsets_of(cs@, offs@),
            crate::token::opt_view(prefix) == bopt(cs@, opt_str_at(cs@, i as int, p as int)),
        ensures
            lit_result(r) == blit(cs@, lex_quoted(cs@, i as int, p as int, opt_str_at(cs@, i as int, p as int))),
            r matches Ok((_, n)) ==> i < n <= cs@.len(),
    {
        let n: usize = cs.len();
        let q = cs[p];
        let j = Self::find_quote_close(cs, p + 1, q);
        if j >= cs.len() {
            return Err(LexerError::UnexpectedEof(Span::new(offs[n], offs[n])));
        }
        let se = Self::scan_word(cs, j + 1);
        let suffix = Self::opt_str(cs, offs, j + 1, se);
        let kind = if q == '"' {
            LitKind::Str
        } else {
            LitKind::Char
        };
        let value = text_at(cs, offs, p + 1, j - 1);
        let lit = Lit::new(Span::new(offs[i], offs[se - 1]), kind, value, prefix, suffix);
        Ok((Token::Lit(lit), se))
    }

    fn lex_raw(cs: &Vec<char>, offs: &Vec<usize>, i: usize, p: usize, prefix: Option<Str>) -> (r: Result<(Token, usize), LexerError>)
        requires
            i <= p < cs@.len(),
            offsets_of(cs@, offs@),
            crate::token::opt_view(prefix) == bopt(cs@, opt_str_at(cs@, i as int, p as int)),
        ensures
            lit_result(r) == blit(cs@, lex_raw(cs@, i as int, p as int, opt_str_at(cs@, i as int, p as int))),
            r matches Ok((_, n)) ==> i < n <= cs@.len(),
    {
        let n: usize = cs.len();
        let he = Self::scan_hashes(cs, p);
        let h = he - p;
        if he >= cs.len() {
            Err(LexerError::UnexpectedEof(Span::new(offs[n], offs[n])))
        } else if Self::is_letter(cs[he]) {
            let e = Self::scan_word(cs, he + 1);
            let value = text_at(cs, offs, i, e - 1);
            let sp = Span::new(offs[i], offs[e - 1]);
            Ok((Token::Lit(Lit::new(sp, LitKind::Str, value, None, None)), e))
        } else if cs[he] == '"' {
            let j = Self::find_raw_close(cs, he + 1, h);
            if j >= cs.len() {
                return Err(LexerError::UnexpectedEof(Span::new(offs[n], offs[n])));
            }
            let close_end = j + h;
            let se = Self::scan_word(cs, close_end + 1);
            let suffix = Self::opt_str(cs, offs, close_end + 1, se);
            let value = text_at(cs, offs, i, close_end);
            let lit = Lit::new(Span::new(offs[i], offs[se - 1]), LitKind::Str, value, prefix, suffix);
            Ok((Token::Lit(lit), se))
        } else {
            Err(LexerError::UnknownToken(Span::new(offs[i], offs[he])))
        }
    }

    fn lex_lit(cs: &Vec<char>, offs: &Vec<usize>, i: usize) -> (r: Result<(Token, usize), LexerError>)
        requires
            i < cs@.len(),
            starts_lit(cs@, i as int),
            offsets_of(cs@, offs@),
        ensures
            lit_result(r) == blit(cs@, lex_lit(cs@, i as int)),
            r matches Ok((_, n)) ==> i < n <= cs@.len(),
    {
        let n: usize = cs.len();
        let c = cs[i];
        let p: usize = if Self::is_letter(c) || c == '_' {
            Self::scan_word(cs, i + 1)
        } else if Self::is_num(c) {
            Self::scan_digits(cs, i + 1)
        } else {
            i
        };
        let prefix = Self::opt_str(cs, offs, i, p);
        if p < cs.len() && cs[p] == '#' {
            Self::lex_raw(cs, offs, i, p, prefix)
        } else if p < cs.len() && (cs[p] == '"' || cs[p] == '\'') {
            Self::lex_quoted(cs, offs, i, p, prefix)
        } else if p < cs.len() && Self::is_letter(cs[p]) {
            let se = Self::scan_word(cs, p + 1);
            let value = text_at(cs, offs, i, p - 1);
            let suffix = text_at(cs, offs, p, se - 1);
            let lit = Lit::new(Span::new(offs[i], offs[se - 1]), LitKind::Int, value, None, Some(suffix));
            Ok((Token::Lit(lit), se))
        } else {
            let sp = Span::new(offs[i], offs[p - 1]);
            let value = text_at(cs, offs, i, p - 1);
            if Self::is_num(c) {
                Ok((Token::Lit(Lit::new(sp, LitKind::Int, value, None, None)), p))
            } else {
                Ok((Token::Ident(Ident::new(sp, value)), p))
            }
        }
    }

    /// Scans `s` into a token tree: blocks for bracketed groups, with the
    /// literals, identifiers and punctuation between them. Spans are byte
    /// offsets into `s`.
    pub fn parse(s: &str) -> (r: Result<TokenStream, LexerError>)
        ensures
            match r {
                Ok(ts) => scan_bytes(s@) == Ok::<Seq<TokenModel>, LexerError>(ts@),
                Err(e) => scan_bytes(s@) == Err::<Seq<TokenModel>, LexerError>(e),
            },
    {
        let cs = chars_of(s);
        let offs = byte_offsets(s, &cs);
        let n: usize = cs.len();
        let mut stack: Vec<Frame> = Vec::new();
        let empty: Vec<Token> = Vec::new();
        assert(tokens_model(empty@) =~= Seq::empty());
        stack.push(Frame { delim: Delim::Invis, start: 0, tokens: empty });
        let ghost mut cstack: Seq<FrameModel> = initial_stack();
        assert(btokens(cs@, Seq::<TokenModel>::empty()) =~= Seq::<TokenModel>::empty());
        assert(stack_model(stack@) =~= bstack(cs@, cstack));
        let mut pos: usize = 0;
        while pos < n
            invariant
                n == cs@.len(),
                cs@ == s@,
                offsets_of(cs@, offs@),
                pos <= n,
                stack@.len() >= 1,
                forall|f: int| 0 <= f < stack@.len() ==> (#[trigger] stack@[f]).start <= pos,
                cstack.len() == stack@.len(),
                stack_model(stack@) == bstack(cs@, cstack),
                scan_from(cs@, pos as int, cstack) == scan(cs@),
            decreases n - pos,
        {
            let c = cs[pos];
            if Self::is_open_delim(c) {
                let ghost before = stack_model(stack@);
                let empty: Vec<Token> = Vec::new();
                assert(tokens_model(empty@) =~= Seq::empty());
                let d = Delim::from(c);
                assert(d == delim_of(c));
                stack.push(Frame { delim: d, start: pos, tokens: empty });
                proof {
                    let old_c = cstack;
                    cstack = cstack.push((delim_of(c), pos, Seq::empty()));
                    assert(btokens(cs@, Seq::<TokenModel>::empty()) =~= Seq::<TokenModel>::empty());
                    assert forall|f: int| 0 <= f < cstack.len() implies #[trigger] stack_model(stack@)[f] == bstack(cs@, cstack)[f] by {
                        if f < old_c.len() {
                            assert(before[f] == bstack(cs@, old_c)[f]);
                        }
                    }
                    assert(stack_model(stack@) =~= bstack(cs@, cstack));
                }
                pos += 1;
            } else if Self::is_close_delim(c) {
                let ghost before = stack_model(stack@);
                let top = stack.pop().unwrap();
                let end_delim = Delim::from(c);
                assert(before[before.len() - 1] == frame_model(top));
                if stack.len() == 0 || top.delim != end_delim {
                    return Err(LexerError::UnmatchedDelimiter {
                        start: Span::new(offs[top.start], offs[top.start]),
                        end: Span::new(offs[pos], offs[pos]),
                        expected: top.delim,
                    });
                }
                let ghost ctop = cstack.last();
                let ghost rest = cstack.drop_last();
                assert forall|f: int| 0 <= f < rest.len() implies #[trigger] stack_model(stack@)[f] == bstack(cs@, rest)[f] by {
                    assert(before[f] == bstack(cs@, cstack)[f]);
                }
                assert(stack_model(stack@) =~= bstack(cs@, rest));
                let block = Block::new(Span::new(offs[top.start], offs[pos]), top.delim, TokenStream::new(top.tokens));
                proof {
                    lemma_block_model(block);
                    lemma_bblock(cs@, span_of(ctop.1 as int, pos as int), ctop.0, ctop.2);
                    lemma_bstack_push_tok(cs@, rest, TokenModel::Block {
                        span: span_of(ctop.1 as int, pos as int),
                        delim: ctop.0,
                        tokens: ctop.2,
                    });
                }
                push_token(&mut stack, Token::Block(block));
                proof {
                    cstack = push_tok(rest, TokenModel::Block {
                        span: span_of(ctop.1 as int, pos as int),
                        delim: ctop.0,
                        tokens: ctop.2,
                    });
                }
                pos += 1;
            } else if Self::is_punct(c) {
                let spacing = if pos + 1 < n && Self::is_punct(cs[pos + 1]) {
                    Spacing::Together
                } else {
                    Spacing::Alone
                };
                let value = text_at(&cs, &offs, pos, pos);
                let tok = Token::Punct(Punct::new(value, spacing));
                proof {
                    lemma_bstack_push_tok(cs@, cstack, punct_at(cs@, pos as int));
                }
                push_token(&mut stack, tok);
                proof {
                    cstack = push_tok(cstack, punct_at(cs@, pos as int));
                }
                pos += 1;
            } else if Self::is_whitespace(c) {
                pos += 1;
            } else if Self::is_word(c) || ((c == '"' || c == '\'') && (pos == 0 || cs[pos - 1] != '\\')) {
                match Self::lex_lit(&cs, &offs, pos) {
                    Ok((t, next)) => {
                        let ghost ct = lex_lit(cs@, pos as int)->Ok_0.0;
                        proof {
                            lemma_bstack_push_tok(cs@, cstack, ct);
                        }
                        push_token(&mut stack, t);
                        proof {
                            cstack = push_tok(cstack, ct);
                        }
                        pos = next;
                    },
                    Err(e) => {
                        return Err(e);
                    },
                }
            } else {
                return Err(LexerError::UnknownChar(Span::new(offs[pos], offs[pos])));
            }
        }
        if stack.len() > 1 {
            let ghost before = stack_model(stack@);
            let top = stack.pop().unwrap();
            assert(before[before.len() - 1] == frame_model(top));
            Err(LexerError::UnmatchedDelimiter {
                start: Span::new(offs[top.start], offs[top.start]),
                end: Span::new(offs[n], offs[n]),
                expected: top.delim,
            })
        } else {
            let ghost before = stack_model(stack@);
            let top = stack.pop().unwrap();
            assert(before[0] == frame_model(top));
            Ok(TokenStream::new(top.tokens))
        }
    }
}

} // verus!
