use vstd::prelude::*;
use crate::span::{byte_off, lemma_byte_off, slice_of, span_of, Span, StrView};
use vstd::utf8::encode_utf8;
use crate::token::{delim_of, Delim, LexerError, TokenModel};
use crate::lexer::{
    digits_end, finish, hash_end, is_close_char, is_digit_char, is_letter_char, is_open_char,
    is_punct_char, is_quote_char, is_space_char, is_word_char, lex_lit, lex_quoted, lex_raw,
    initial_stack, punct_at, push_tok, quote_close, raw_close, scan, scan_from, starts_lit,
    word_end,
    FrameModel, berror, bstr, btoken, scan_bytes,
};

verus! {

/// The span of a token model as a whole.
pub open spec fn model_span(t: TokenModel) -> Span {
    match t {
        TokenModel::Lit { span, .. } => span,
        TokenModel::Punct { value, .. } => value.span,
        TokenModel::Block { span, .. } => span,
        TokenModel::Ident { span, .. } => span,
    }
}

/// The span of `v` lies in `cs` (it may be empty: `end + 1 == start`) and
/// its text is exactly what the span covers; offsets are character indices.
pub open spec fn faithful_str(cs: Seq<char>, v: StrView) -> bool {
    &&& v.span.start <= v.span.end + 1 <= cs.len()
    &&& v.text == slice_of(cs, v.span)
}

pub open spec fn faithful_opt(cs: Seq<char>, o: Option<StrView>) -> bool {
    match o {
        Some(v) => faithful_str(cs, v),
        None => true,
    }
}

/// Every piece of text in `t` and in the tokens nested in it is the slice of
/// `cs` under its span.
pub open spec fn faithful(cs: Seq<char>, t: TokenModel) -> bool
    decreases t,
{
    match t {
        TokenModel::Lit { value, prefix, suffix, .. } => faithful_str(cs, value) && faithful_opt(cs, prefix)
            && faithful_opt(cs, suffix),
        TokenModel::Punct { value, .. } => faithful_str(cs, value),
        TokenModel::Ident { value, .. } => faithful_str(cs, value),
        TokenModel::Block { tokens, .. } => forall|k: int|
            0 <= k < tokens.len() ==> #[trigger] faithful(cs, tokens[k]),
    }
}

/// Every block in `t` runs from an opening bracket of its kind to the closing
/// bracket of the same kind, and the tokens inside it lie strictly between
/// the two.
pub open spec fn nested(cs: Seq<char>, t: TokenModel) -> bool
    decreases t,
{
    match t {
        TokenModel::Block { span, delim, tokens } => {
            &&& span.start < span.end < cs.len()
            &&& is_open_char(cs[span.start as int])
            &&& is_close_char(cs[span.end as int])
            &&& delim_of(cs[span.start as int]) == delim
            &&& delim_of(cs[span.end as int]) == delim
            &&& forall|k: int|
                0 <= k < tokens.len() ==> span.start < model_span(#[trigger] tokens[k]).start
                    && model_span(tokens[k]).end < span.end && nested(cs, tokens[k])
        },
        _ => true,
    }
}


/// An unmatched-delimiter error either ends at the end of input and starts
/// at an opening bracket of the expected kind, or ends at a closing bracket
/// of another kind than the one expected.
pub open spec fn genuine_unmatched(cs: Seq<char>, e: LexerError) -> bool {
    match e {
        LexerError::UnmatchedDelimiter { start, end, expected } => {
            ||| (end.start == cs.len() && expected != Delim::Invis && start.start < cs.len()
                && is_open_char(cs[start.start as int]) && delim_of(cs[start.start as int])
                == expected)
            ||| (end.start < cs.len() && is_close_char(cs[end.start as int]) && delim_of(
                cs[end.start as int],
            ) != expected)
        },
        _ => true,
    }
}

/// `t` is faithful to `cs`, well bracketed, and lies strictly between `lo`
/// and `hi`.
pub open spec fn tok_ok(cs: Seq<char>, t: TokenModel, lo: int, hi: int) -> bool {
    &&& faithful(cs, t)
    &&& faithful_bytes(cs, btoken(cs, t))
    &&& nested(cs, t)
    &&& lo < model_span(t).start
    &&& model_span(t).end < hi
}

/// The offset after which the tokens of frame `f` start.
pub open spec fn frame_lo(stack: Seq<FrameModel>, f: int) -> int {
    if f == 0 {
        -1
    } else {
        stack[f].1 as int
    }
}

/// What holds of the scanner's state at every step.
pub open spec fn scan_inv(cs: Seq<char>, pos: int, stack: Seq<FrameModel>) -> bool {
    &&& 0 <= pos <= cs.len() <= usize::MAX
    &&& encode_utf8(cs).len() <= usize::MAX
    &&& stack.len() >= 1
    &&& stack[0].0 == Delim::Invis
    &&& forall|f: int|
        1 <= f < stack.len() ==> {
            &&& (#[trigger] stack[f]).1 < pos
            &&& is_open_char(cs[stack[f].1 as int])
            &&& delim_of(cs[stack[f].1 as int]) == stack[f].0
            &&& frame_lo(stack, f - 1) < stack[f].1
        }
    &&& forall|f: int, k: int|
        0 <= f < stack.len() && 0 <= k < stack[f].2.len() ==> tok_ok(
            cs,
            #[trigger] stack[f].2[k],
            frame_lo(stack, f),
            pos,
        )
}

pub open spec fn scan_post(cs: Seq<char>, r: Result<Seq<TokenModel>, LexerError>) -> bool {
    match r {
        Ok(ts) => forall|k: int| 0 <= k < ts.len() ==> tok_ok(cs, #[trigger] ts[k], -1, cs.len() as int),
        Err(e) => genuine_unmatched(cs, e),
    }
}

proof fn lemma_word_end(cs: Seq<char>, k: int)
    requires
        0 <= k <= cs.len(),
    ensures
        k <= word_end(cs, k) <= cs.len(),
    decreases cs.len() - k,
{
    if k < cs.len() && is_word_char(cs[k]) {
        lemma_word_end(cs, k + 1);
    }
}

proof fn lemma_digits_end(cs: Seq<char>, k: int)
    requires
        0 <= k <= cs.len(),
    ensures
        k <= digits_end(cs, k) <= cs.len(),
    decreases cs.len() - k,
{
    if k < cs.len() && (is_digit_char(cs[k]) || cs[k] == '_') {
        lemma_digits_end(cs, k + 1);
    }
}

proof fn lemma_hash_end(cs: Seq<char>, k: int)
    requires
        0 <= k <= cs.len(),
    ensures
        k <= hash_end(cs, k) <= cs.len(),
    decreases cs.len() - k,
{
    if k < cs.len() && cs[k] == '#' {
        lemma_hash_end(cs, k + 1);
    }
}

proof fn lemma_quote_close(cs: Seq<char>, k: int, q: char)
    requires
        0 < k <= cs.len(),
    ensures
        k <= quote_close(cs, k, q) <= cs.len(),
    decreases cs.len() - k,
{
    if k < cs.len() && !(cs[k] == q && cs[k - 1] != '\\') {
        lemma_quote_close(cs, k + 1, q);
    }
}

proof fn lemma_raw_close(cs: Seq<char>, k: int, h: int)
    requires
        0 <= k <= cs.len(),
    ensures
        k <= raw_close(cs, k, h) <= cs.len(),
        raw_close(cs, k, h) < cs.len() ==> raw_close(cs, k, h) + 1 + h <= cs.len(),
    decreases cs.len() - k,
{
    if k < cs.len() {
        if cs[k] == '"' && hash_end(cs, k + 1) - (k + 1) == h {
            lemma_hash_end(cs, k + 1);
        } else {
            lemma_raw_close(cs, k + 1, h);
        }
    }
}

/// A literal or identifier lexed at `i` has a span that runs from its first
/// scanned character, `i`, to its last, the one before the offset it
/// returns: prefix, quotes or hashes, body and suffix included. Its texts
/// are the source slices under their spans.
pub proof fn lemma_lex_lit(cs: Seq<char>, i: int)
    requires
        0 <= i < cs.len() <= usize::MAX,
        starts_lit(cs, i),
    ensures
        lex_lit(cs, i) matches Ok((t, n)) ==> i < n <= cs.len() && model_span(t).start == i
            && model_span(t).end == n - 1 && faithful(cs, t) && nested(cs, t),
        lex_lit(cs, i) matches Err(e) ==> !(e is UnmatchedDelimiter),
{
    let c = cs[i];
    if is_letter_char(c) || c == '_' {
        lemma_word_end(cs, i + 1);
    } else if is_digit_char(c) {
        lemma_digits_end(cs, i + 1);
    }
    let p = if is_letter_char(c) || c == '_' {
        word_end(cs, i + 1)
    } else if is_digit_char(c) {
        digits_end(cs, i + 1)
    } else {
        i
    };
    if p < cs.len() {
        if cs[p] == '#' {
            lemma_hash_end(cs, p);
            let he = hash_end(cs, p);
            if he < cs.len() {
                if is_letter_char(cs[he]) {
                    lemma_word_end(cs, he + 1);
                } else if cs[he] == '"' {
                    lemma_raw_close(cs, he + 1, he - p);
                    let j = raw_close(cs, he + 1, he - p);
                    if j < cs.len() {
                        lemma_word_end(cs, j + (he - p) + 1);
                    }
                }
            }
        } else if is_quote_char(cs[p]) {
            lemma_quote_close(cs, p + 1, cs[p]);
            let j = quote_close(cs, p + 1, cs[p]);
            if j < cs.len() {
                lemma_word_end(cs, j + 1);
            }
        } else if is_letter_char(cs[p]) {
            lemma_word_end(cs, p + 1);
        }
    }
}

proof fn lemma_advance(cs: Seq<char>, pos: int, stack: Seq<FrameModel>, next: int)
    requires
        scan_inv(cs, pos, stack),
        pos <= next <= cs.len(),
    ensures
        scan_inv(cs, next, stack),
{
    assert forall|f: int, k: int| 0 <= f < stack.len() && 0 <= k < stack[f].2.len() implies tok_ok(
        cs,
        #[trigger] stack[f].2[k],
        frame_lo(stack, f),
        next,
    ) by {
        assert(tok_ok(cs, stack[f].2[k], frame_lo(stack, f), pos));
    }
}

proof fn lemma_push(cs: Seq<char>, pos: int, stack: Seq<FrameModel>, t: TokenModel, next: int)
    requires
        scan_inv(cs, pos, stack),
        pos < next <= cs.len(),
        tok_ok(cs, t, frame_lo(stack, stack.len() - 1), next),
    ensures
        scan_inv(cs, next, push_tok(stack, t)),
{
    lemma_advance(cs, pos, stack, next);
    let ns = push_tok(stack, t);
    let last = stack.len() - 1;
    assert forall|f: int| 0 <= f < stack.len() implies frame_lo(ns, f) == frame_lo(stack, f)
        && (#[trigger] ns[f]).0 == stack[f].0 && ns[f].1 == stack[f].1 by {}
    assert forall|f: int, k: int| 0 <= f < ns.len() && 0 <= k < ns[f].2.len() implies tok_ok(
        cs,
        #[trigger] ns[f].2[k],
        frame_lo(ns, f),
        next,
    ) by {
        assert(frame_lo(ns, f) == frame_lo(stack, f));
        if f == last && k == stack[f].2.len() {
        } else {
            assert(ns[f].2[k] == stack[f].2[k]);
        }
    }
    assert forall|f: int| 1 <= f < ns.len() implies {
        &&& (#[trigger] ns[f]).1 < next
        &&& is_open_char(cs[ns[f].1 as int])
        &&& delim_of(cs[ns[f].1 as int]) == ns[f].0
        &&& frame_lo(ns, f - 1) < ns[f].1
    } by {
        assert(frame_lo(ns, f - 1) == frame_lo(stack, f - 1));
        assert(stack[f].1 < pos);
    }
}

/// The scanner's invariant holds in every state it reaches, so whatever it
/// returns meets `scan_post`.
proof fn lemma_scan_from(cs: Seq<char>, pos: int, stack: Seq<FrameModel>)
    requires
        scan_inv(cs, pos, stack),
    ensures
        scan_post(cs, scan_from(cs, pos, stack)),
    decreases cs.len() - pos,
{
    let top = stack.last();
    let last = stack.len() - 1;
    if last >= 1 {
        assert(stack[last].1 < pos);
    }
    if !(0 <= pos < cs.len()) {
        if stack.len() > 1 {
            assert(is_open_char(cs[stack[last].1 as int]));
        } else {
            let ts = stack[0].2;
            assert forall|k: int| 0 <= k < ts.len() implies tok_ok(cs, #[trigger] ts[k], -1, cs.len() as int) by {
                assert(tok_ok(cs, stack[0].2[k], frame_lo(stack, 0), pos));
            }
        }
    } else {
        let c = cs[pos];
        if is_open_char(c) {
            let ns = stack.push((delim_of(c), pos as usize, Seq::<TokenModel>::empty()));
            lemma_advance(cs, pos, stack, pos + 1);
            assert forall|f: int| 0 <= f < stack.len() implies frame_lo(ns, f) == frame_lo(stack, f)
                && #[trigger] ns[f] == stack[f] by {}
            assert forall|f: int, k: int| 0 <= f < ns.len() && 0 <= k < ns[f].2.len() implies tok_ok(
                cs,
                #[trigger] ns[f].2[k],
                frame_lo(ns, f),
                pos + 1,
            ) by {
                assert(f < stack.len());
                assert(tok_ok(cs, stack[f].2[k], frame_lo(stack, f), pos + 1));
            }
            assert forall|f: int| 1 <= f < ns.len() implies {
                &&& (#[trigger] ns[f]).1 < pos + 1
                &&& is_open_char(cs[ns[f].1 as int])
                &&& delim_of(cs[ns[f].1 as int]) == ns[f].0
                &&& frame_lo(ns, f - 1) < ns[f].1
            } by {
                if f < stack.len() {
                    assert(ns[f] == stack[f]);
                } else {
                    assert(frame_lo(ns, f - 1) == frame_lo(stack, last));
                }
            }
            lemma_scan_from(cs, pos + 1, ns);
        } else if is_close_char(c) {
            if stack.len() < 2 || top.0 != delim_of(c) {
            } else {
                let rest = stack.drop_last();
                let block = TokenModel::Block {
                    span: span_of(top.1 as int, pos),
                    delim: top.0,
                    tokens: top.2,
                };
                assert forall|f: int| 0 <= f < rest.len() implies frame_lo(rest, f) == frame_lo(stack, f)
                    && #[trigger] rest[f] == stack[f] by {}
                assert(scan_inv(cs, pos, rest)) by {
                    assert forall|f: int, k: int| 0 <= f < rest.len() && 0 <= k < rest[f].2.len() implies tok_ok(
                        cs,
                        #[trigger] rest[f].2[k],
                        frame_lo(rest, f),
                        pos,
                    ) by {
                        assert(tok_ok(cs, stack[f].2[k], frame_lo(stack, f), pos));
                    }
                }
                assert forall|k: int| 0 <= k < top.2.len() implies top.1 < model_span(#[trigger] top.2[k]).start
                    && model_span(top.2[k]).end < pos && nested(cs, top.2[k]) && faithful(cs, top.2[k])
                    && faithful_bytes(cs, btoken(cs, top.2[k])) by {
                    assert(tok_ok(cs, stack[last].2[k], frame_lo(stack, last), pos));
                }
                assert(nested(cs, block));
                assert(faithful(cs, block));
                crate::lexer::lemma_bblock(cs, span_of(top.1 as int, pos), top.0, top.2);
                let bts = crate::lexer::btokens(cs, top.2);
                assert(forall|k: int| 0 <= k < bts.len() ==> #[trigger] bts[k] == btoken(cs, top.2[k]));
                assert(faithful_bytes(cs, btoken(cs, block)));
                lemma_push(cs, pos, rest, block, pos + 1);
                lemma_scan_from(cs, pos + 1, push_tok(rest, block));
            }
        } else if is_punct_char(c) {
            lemma_leaf_bytes(cs, punct_at(cs, pos));
            lemma_push(cs, pos, stack, punct_at(cs, pos), pos + 1);
            lemma_scan_from(cs, pos + 1, push_tok(stack, punct_at(cs, pos)));
        } else if is_space_char(c) {
            lemma_advance(cs, pos, stack, pos + 1);
            lemma_scan_from(cs, pos + 1, stack);
        } else if starts_lit(cs, pos) {
            lemma_lex_lit(cs, pos);
            match lex_lit(cs, pos) {
                Ok((t, n)) => {
                    if pos < n && n <= cs.len() {
                        lemma_leaf_bytes(cs, t);
                        lemma_push(cs, pos, stack, t, n);
                        lemma_scan_from(cs, n, push_tok(stack, t));
                    }
                },
                Err(e) => {},
            }
        }
    }
}

proof fn lemma_scan(cs: Seq<char>)
    requires
        encode_utf8(cs).len() <= usize::MAX,
    ensures
        scan_post(cs, scan(cs)),
{
    assert(cs.subrange(0, cs.len() as int) =~= cs);
    lemma_byte_off(cs, cs.len() as int);
    let init = initial_stack();
    assert(init.len() == 1);
    assert(scan_inv(cs, 0, init));
    lemma_scan_from(cs, 0, init);
}

/// When a scan succeeds, every piece of text that a token carries (a
/// literal's value, prefix and suffix, a punctuation character, an
/// identifier), in nested blocks too, is exactly the slice of the source
/// under its span, in the character indices of `scan`.
pub proof fn lemma_span_fidelity(cs: Seq<char>)
    requires
        encode_utf8(cs).len() <= usize::MAX,
    ensures
        scan(cs) matches Ok(ts) ==> forall|k: int| 0 <= k < ts.len() ==> faithful(cs, #[trigger] ts[k]),
{
    lemma_scan(cs);
}

/// Blocks nest as the brackets of the source do: when a scan succeeds, each
/// block runs from an opening bracket to a closing bracket of its own kind,
/// with its tokens strictly between them. And an unmatched-delimiter error
/// comes only where a bracket is still open at the end of input, or where a
/// closing bracket is not of the kind of the innermost open one.
pub proof fn lemma_delimiter_balance(cs: Seq<char>)
    requires
        encode_utf8(cs).len() <= usize::MAX,
    ensures
        scan(cs) matches Ok(ts) ==> forall|k: int|
            0 <= k < ts.len() ==> nested(cs, #[trigger] ts[k]) && model_span(ts[k]).end < cs.len(),
        scan(cs) matches Err(e) ==> genuine_unmatched(cs, e),
{
    lemma_scan(cs);
}

/// A character that opens no token, whatever state the scanner is in when it
/// reaches it, ends the scan with an unknown-character error at its offset,
/// which `parse` reports as the byte offset at which the character starts.
pub proof fn lemma_unknown_char(cs: Seq<char>, pos: int, stack: Seq<FrameModel>)
    requires
        0 <= pos < cs.len() <= usize::MAX,
        !is_open_char(cs[pos]),
        !is_close_char(cs[pos]),
        !is_punct_char(cs[pos]),
        !is_space_char(cs[pos]),
        !starts_lit(cs, pos),
    ensures
        scan_from(cs, pos, stack) == Err::<Seq<TokenModel>, LexerError>(
            LexerError::UnknownChar(span_of(pos, pos)),
        ),
        berror(cs, LexerError::UnknownChar(span_of(pos, pos))) == LexerError::UnknownChar(
            Span { start: byte_off(cs, pos) as usize, end: byte_off(cs, pos) as usize },
        ),
{
}

/// The text of `v` is the characters `cs[a..=b]`, where `a` and `b` are the
/// characters whose first bytes are where the span of `v` starts and ends.
pub open spec fn faithful_bytes_str(cs: Seq<char>, v: StrView) -> bool {
    exists|a: int, b: int|
        0 <= a <= b + 1 <= cs.len() && byte_off(cs, a) == v.span.start as int && byte_off(cs, b)
            == v.span.end as int && v.text == #[trigger] cs.subrange(a, b + 1)
}

pub open spec fn faithful_bytes_opt(cs: Seq<char>, o: Option<StrView>) -> bool {
    match o {
        Some(v) => faithful_bytes_str(cs, v),
        None => true,
    }
}

/// Every piece of text in `t`, nested tokens included, is the source text
/// under its byte span.
pub open spec fn faithful_bytes(cs: Seq<char>, t: TokenModel) -> bool
    decreases t,
{
    match t {
        TokenModel::Lit { value, prefix, suffix, .. } => faithful_bytes_str(cs, value)
            && faithful_bytes_opt(cs, prefix) && faithful_bytes_opt(cs, suffix),
        TokenModel::Punct { value, .. } => faithful_bytes_str(cs, value),
        TokenModel::Ident { value, .. } => faithful_bytes_str(cs, value),
        TokenModel::Block { tokens, .. } => forall|k: int|
            0 <= k < tokens.len() ==> #[trigger] faithful_bytes(cs, tokens[k]),
    }
}

proof fn lemma_str_bytes(cs: Seq<char>, v: StrView)
    requires
        encode_utf8(cs).len() <= usize::MAX,
        faithful_str(cs, v),
    ensures
        faithful_bytes_str(cs, bstr(cs, v)),
{
    let a = v.span.start as int;
    let b = v.span.end as int;
    assert(cs.subrange(0, cs.len() as int) =~= cs);
    lemma_byte_off(cs, cs.len() as int);
    lemma_byte_off(cs, a);
    lemma_byte_off(cs, b);
    assert(v.text == cs.subrange(a, b + 1));
}

proof fn lemma_leaf_bytes(cs: Seq<char>, t: TokenModel)
    requires
        encode_utf8(cs).len() <= usize::MAX,
        faithful(cs, t),
        !(t is Block),
    ensures
        faithful_bytes(cs, btoken(cs, t)),
    decreases t,
{
    match t {
        TokenModel::Lit { span, kind, value, prefix, suffix } => {
            lemma_str_bytes(cs, value);
            if let Some(p) = prefix {
                lemma_str_bytes(cs, p);
            }
            if let Some(x) = suffix {
                lemma_str_bytes(cs, x);
            }
            assert(faithful_bytes_opt(cs, crate::lexer::bopt(cs, prefix)));
            assert(faithful_bytes_opt(cs, crate::lexer::bopt(cs, suffix)));
            let bt = btoken(cs, t);
            assert(bt == (TokenModel::Lit { span: crate::lexer::bspan(cs, span), kind, value: bstr(cs, value), prefix: crate::lexer::bopt(cs, prefix), suffix: crate::lexer::bopt(cs, suffix) }));
            assert(faithful_bytes(cs, bt));
        },
        TokenModel::Punct { value, .. } => {
            lemma_str_bytes(cs, value);
        },
        TokenModel::Ident { value, .. } => {
            lemma_str_bytes(cs, value);
        },
        TokenModel::Block { .. } => {},
    }
}

/// When `parse` succeeds, every piece of text that a token carries (a
/// literal's value, prefix and suffix, a punctuation character, an
/// identifier), in nested blocks too, is exactly the source text under its
/// byte span.
pub proof fn lemma_span_fidelity_bytes(cs: Seq<char>)
    requires
        encode_utf8(cs).len() <= usize::MAX,
    ensures
        scan_bytes(cs) matches Ok(ts) ==> forall|k: int|
            0 <= k < ts.len() ==> faithful_bytes(cs, #[trigger] ts[k]),
{
    assert(cs.subrange(0, cs.len() as int) =~= cs);
    lemma_byte_off(cs, cs.len() as int);
    lemma_scan(cs);
    if let Ok(ts) = scan(cs) {
        assert forall|k: int| 0 <= k < ts.len() implies faithful_bytes(cs, #[trigger] crate::lexer::btokens(cs, ts)[k]) by {
            assert(tok_ok(cs, ts[k], -1, cs.len() as int));
        }
    }
}

/// Whether the brackets of `cs` from `pos` on close, in order, the brackets
/// open in `open` (innermost last) and then balance among themselves.
pub open spec fn balanced_from(cs: Seq<char>, pos: int, open: Seq<Delim>) -> bool
    decreases cs.len() - pos,
{
    if !(0 <= pos < cs.len()) {
        open.len() == 0
    } else if is_open_char(cs[pos]) {
        balanced_from(cs, pos + 1, open.push(delim_of(cs[pos])))
    } else if is_close_char(cs[pos]) {
        open.len() > 0 && open.last() == delim_of(cs[pos]) && balanced_from(cs, pos + 1, open.drop_last())
    } else {
        balanced_from(cs, pos + 1, open)
    }
}

/// Brackets, identifier characters, white space and punctuation other than
/// `#`: text in which no literal can hide a bracket.
pub open spec fn plain_char(c: char) -> bool {
    is_open_char(c) || is_close_char(c) || is_word_char(c) || is_space_char(c) || (
    is_punct_char(c) && c != '#')
}

proof fn lemma_balanced_skip(cs: Seq<char>, pos: int, n: int, open: Seq<Delim>)
    requires
        0 <= pos <= n <= cs.len(),
        forall|k: int| pos <= k < n ==> is_word_char(#[trigger] cs[k]),
    ensures
        balanced_from(cs, pos, open) == balanced_from(cs, n, open),
    decreases n - pos,
{
    if pos < n {
        lemma_balanced_skip(cs, pos + 1, n, open);
    }
}

proof fn lemma_word_run(cs: Seq<char>, k: int)
    requires
        0 <= k <= cs.len(),
    ensures
        forall|j: int| k <= j < word_end(cs, k) ==> is_word_char(#[trigger] cs[j]),
    decreases cs.len() - k,
{
    if k < cs.len() && is_word_char(cs[k]) {
        lemma_word_run(cs, k + 1);
    }
}

proof fn lemma_digit_run(cs: Seq<char>, k: int)
    requires
        0 <= k <= cs.len(),
    ensures
        forall|j: int| k <= j < digits_end(cs, k) ==> is_word_char(#[trigger] cs[j]),
    decreases cs.len() - k,
{
    if k < cs.len() && (is_digit_char(cs[k]) || cs[k] == '_') {
        lemma_digit_run(cs, k + 1);
    }
}

proof fn lemma_plain_scan(cs: Seq<char>, pos: int, stack: Seq<FrameModel>, open: Seq<Delim>)
    requires
        0 <= pos <= cs.len(),
        forall|k: int| 0 <= k < cs.len() ==> plain_char(#[trigger] cs[k]),
        stack.len() == open.len() + 1,
        forall|f: int| 0 <= f < open.len() ==> (#[trigger] stack[f + 1]).0 == open[f],
        balanced_from(cs, pos, open),
    ensures
        scan_from(cs, pos, stack) is Ok,
    decreases cs.len() - pos,
{
    if pos < cs.len() {
        let c = cs[pos];
        if is_open_char(c) {
            let ns = stack.push((delim_of(c), pos as usize, Seq::<TokenModel>::empty()));
            let no = open.push(delim_of(c));
            assert forall|f: int| 0 <= f < no.len() implies (#[trigger] ns[f + 1]).0 == no[f] by {
                if f < open.len() {
                    assert(ns[f + 1] == stack[f + 1]);
                }
            }
            lemma_plain_scan(cs, pos + 1, ns, no);
        } else if is_close_char(c) {
            assert(open.len() > 0);
            let li = open.len() - 1;
            assert(stack[li + 1].0 == open[li]);
            assert(stack.last().0 == open.last());
            let rest = stack.drop_last();
            let top = stack.last();
            let block = TokenModel::Block { span: span_of(top.1 as int, pos), delim: top.0, tokens: top.2 };
            let ns = push_tok(rest, block);
            let no = open.drop_last();
            assert forall|f: int| 0 <= f < no.len() implies (#[trigger] ns[f + 1]).0 == no[f] by {
                assert(ns[f + 1].0 == stack[f + 1].0);
            }
            lemma_plain_scan(cs, pos + 1, ns, no);
        } else if is_punct_char(c) {
            let ns = push_tok(stack, punct_at(cs, pos));
            assert forall|f: int| 0 <= f < open.len() implies (#[trigger] ns[f + 1]).0 == open[f] by {
                assert(ns[f + 1].0 == stack[f + 1].0);
            }
            lemma_plain_scan(cs, pos + 1, ns, open);
        } else if is_space_char(c) {
            lemma_plain_scan(cs, pos + 1, stack, open);
        } else {
            assert(is_word_char(c));
            let p = if is_letter_char(c) || c == '_' {
                word_end(cs, pos + 1)
            } else {
                digits_end(cs, pos + 1)
            };
            if is_letter_char(c) || c == '_' {
                lemma_word_end(cs, pos + 1);
                lemma_word_run(cs, pos + 1);
            } else {
                lemma_digits_end(cs, pos + 1);
                lemma_digit_run(cs, pos + 1);
            }
            let n = if p < cs.len() && is_letter_char(cs[p]) {
                lemma_word_end(cs, p + 1);
                lemma_word_run(cs, p + 1);
                word_end(cs, p + 1)
            } else {
                p
            };
            assert(lex_lit(cs, pos) is Ok);
            assert(lex_lit(cs, pos)->Ok_0.1 == n);
            let t = lex_lit(cs, pos)->Ok_0.0;
            let ns = push_tok(stack, t);
            assert forall|f: int| 0 <= f < open.len() implies (#[trigger] ns[f + 1]).0 == open[f] by {
                assert(ns[f + 1].0 == stack[f + 1].0);
            }
            lemma_balanced_skip(cs, pos, n, open);
            lemma_plain_scan(cs, n, ns, open);
        }
    }
}

/// Text made only of brackets, identifier characters, white space and
/// punctuation other than `#`, whose brackets are balanced and properly
/// nested, scans without error; in particular it gives no
/// unmatched-delimiter error.
pub proof fn lemma_balanced_scans(cs: Seq<char>)
    requires
        forall|k: int| 0 <= k < cs.len() ==> plain_char(#[trigger] cs[k]),
        balanced_from(cs, 0, Seq::empty()),
    ensures
        scan(cs) is Ok,
        scan_bytes(cs) is Ok,
{
    lemma_plain_scan(cs, 0, initial_stack(), Seq::empty());
}

} // verus!
