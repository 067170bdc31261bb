use vstd::prelude::*;
use vstd::utf8::{encode_scalar, encode_utf8, is_char_boundary};
use vstd::string::StringSliceAdditionalSpecFns;

verus! {

/// An inclusive range of offsets: `end` is the offset of the last character
/// that the span covers. Spans of scanned tokens are byte offsets into the
/// source, `end` being the first byte of that last character.
#[derive(Clone, Copy, Debug, PartialEq, Eq, Structural)]
pub struct Span {
    pub start: usize,
    pub end: usize,
}

/// The span from `a` to `b`, both inclusive.
pub open spec fn span_of(a: int, b: int) -> Span {
    Span { start: a as usize, end: b as usize }
}

/// The characters of `cs` that the span `sp` covers.
pub open spec fn slice_of(cs: Seq<char>, sp: Span) -> Seq<char> {
    cs.subrange(sp.start as int, sp.end as int + 1)
}

impl Span {
    pub fn new(start: usize, end: usize) -> (r: Span)
        ensures
            r == (Span { start, end }),
    {
        Span { start, end }
    }

    pub fn start(&self) -> (r: usize)
        ensures
            r == self.start,
    {
        self.start
    }

    pub fn end(&self) -> (r: usize)
        ensures
            r == self.end,
    {
        self.end
    }

    /// The distance from the first to the last offset: one less than the
    /// number of characters covered.
    pub fn len(&self) -> (r: usize)
        requires
            self.start <= self.end,
        ensures
            r == self.end - self.start,
    {
        self.end - self.start
    }

    /// The smallest span that covers both.
    pub fn join(&self, other: Span) -> (r: Span)
        ensures
            r.start == if self.start <= other.start { self.start } else { other.start },
            r.end == if self.end >= other.end { self.end } else { other.end },
    {
        let start = if self.start <= other.start { self.start } else { other.start };
        let end = if self.end >= other.end { self.end } else { other.end };
        Span::new(start, end)
    }

    /// Joins with `other` when there is one, else returns `self`.
    pub fn join_option(&self, other: Option<Span>) -> (r: Span)
        ensures
            other is None ==> r == *self,
            other matches Some(o) ==> r.start == (if self.start <= o.start { self.start } else { o.start })
                && r.end == (if self.end >= o.end { self.end } else { o.end }),
    {
        match other {
            Some(o) => self.join(o),
            None => *self,
        }
    }
}

/// What a `Str` denotes: its span and its characters.
pub struct StrView {
    pub span: Span,
    pub text: Seq<char>,
}

/// The view of the piece of `cs` that `sp` covers.
pub open spec fn str_at(cs: Seq<char>, sp: Span) -> StrView {
    StrView { span: sp, text: slice_of(cs, sp) }
}

/// A span together with a copy of the source text it covers.
#[derive(Debug)]
pub struct Str {
    pub span: Span,
    pub value: String,
}

impl View for Str {
    type V = StrView;

    open spec fn view(&self) -> StrView {
        StrView { span: self.span, text: self.value@ }
    }
}

/// Relies on `String::push`: appends one character at the end.
#[verifier::external_body]
fn push_char(s: &mut String, c: char)
    ensures
        final(s)@ == old(s)@.push(c),
{
    s.push(c)
}

/// The characters of `s`, in order.
pub fn chars_of(s: &str) -> (r: Vec<char>)
    ensures
        r@ == s@,
{
    let mut v: Vec<char> = Vec::new();
    for c in it: s.chars()
        invariant
            v@ == it.seq().subrange(0, it.index() as int),
    {
        v.push(c);
    }
    v
}

/// The number of bytes that `c` takes in UTF-8.
pub open spec fn utf8_len(c: char) -> int {
    let v = c as u32;
    if v < 0x80 {
        1
    } else if v < 0x800 {
        2
    } else if v < 0x10000 {
        3
    } else {
        4
    }
}

/// The byte offset at which character `k` of `cs` starts: the sum of the
/// UTF-8 lengths of the characters before it.
pub open spec fn byte_off(cs: Seq<char>, k: int) -> int
    decreases k,
{
    if k <= 0 {
        0
    } else {
        byte_off(cs, k - 1) + utf8_len(cs[k - 1])
    }
}

proof fn lemma_encode_push_len(a: Seq<char>, c: char)
    ensures
        encode_utf8(a.push(c)).len() == encode_utf8(a).len() + utf8_len(c),
    decreases a.len(),
{
    broadcast use vstd::utf8::char_is_scalar;

    if a.len() == 0 {
        assert(a.push(c).drop_first() =~= Seq::<char>::empty());
        assert(encode_utf8(a.push(c)) == encode_scalar(c as u32) + encode_utf8(Seq::<char>::empty()));
    } else {
        assert(a.push(c).drop_first() =~= a.drop_first().push(c));
        lemma_encode_push_len(a.drop_first(), c);
    }
}

/// The byte offset of character `k` is the length of the UTF-8 encoding of
/// the characters before it, and grows with `k`.
pub proof fn lemma_byte_off(cs: Seq<char>, k: int)
    requires
        0 <= k <= cs.len(),
    ensures
        byte_off(cs, k) == encode_utf8(cs.subrange(0, k)).len(),
        k <= byte_off(cs, k) <= byte_off(cs, cs.len() as int),
    decreases cs.len() - k,
{
    if k < cs.len() {
        lemma_byte_off(cs, k + 1);
    }
    lemma_byte_off_prefix(cs, k);
}

proof fn lemma_byte_off_prefix(cs: Seq<char>, k: int)
    requires
        0 <= k <= cs.len(),
    ensures
        byte_off(cs, k) == encode_utf8(cs.subrange(0, k)).len(),
        k <= byte_off(cs, k),
    decreases k,
{
    if k > 0 {
        lemma_byte_off_prefix(cs, k - 1);
        assert(cs.subrange(0, k) =~= cs.subrange(0, k - 1).push(cs[k - 1]));
        lemma_encode_push_len(cs.subrange(0, k - 1), cs[k - 1]);
    } else {
        assert(cs.subrange(0, 0) =~= Seq::<char>::empty());
    }
}

/// The number of bytes that `c` takes in UTF-8.
pub fn utf8_width(c: char) -> (r: usize)
    ensures
        r == utf8_len(c),
{
    let v = c as u32;
    if v < 0x80 {
        1
    } else if v < 0x800 {
        2
    } else if v < 0x10000 {
        3
    } else {
        4
    }
}

/// The byte offset of every character of `s`, and of its end.
pub fn byte_offsets(s: &str, cs: &Vec<char>) -> (r: Vec<usize>)
    requires
        cs@ == s@,
    ensures
        r@.len() == cs@.len() + 1,
        forall|k: int| 0 <= k <= cs@.len() ==> r@[k] == byte_off(cs@, k),
{
    let total: usize = s.as_bytes().len();
    proof {
        lemma_byte_off(cs@, cs@.len() as int);
        assert(cs@.subrange(0, cs@.len() as int) =~= cs@);
        assert(total == encode_utf8(s@).len());
        assert(byte_off(cs@, cs@.len() as int) == encode_utf8(cs@).len());
    }
    let mut r: Vec<usize> = Vec::new();
    r.push(0);
    let mut off: usize = 0;
    let mut k: usize = 0;
    while k < cs.len()
        invariant
            k <= cs@.len(),
            total == byte_off(cs@, cs@.len() as int),
            off == byte_off(cs@, k as int),
            r@.len() == k + 1,
            forall|j: int| 0 <= j <= k ==> r@[j] == byte_off(cs@, j),
        decreases cs@.len() - k,
    {
        proof {
            lemma_byte_off(cs@, k + 1);
        }
        off = off + utf8_width(cs[k]);
        k += 1;
        r.push(off);
    }
    r
}

/// The characters `cs[a..=b]`, copied; empty when `b + 1 == a`.
pub fn chars_between(cs: &Vec<char>, a: usize, b: usize) -> (r: String)
    requires
        a <= b + 1 <= cs@.len(),
    ensures
        r@ == cs@.subrange(a as int, b + 1),
{
    let n: usize = cs.len();
    let mut value = String::new();
    let mut k: usize = a;
    let stop: usize = b + 1;
    while k < stop
        invariant
            a <= k <= stop,
            stop == b + 1,
            stop <= cs@.len(),
            value@ == cs@.subrange(a as int, k as int),
        decreases stop - k,
    {
        push_char(&mut value, cs[k]);
        assert(cs@.subrange(a as int, k + 1) =~= cs@.subrange(a as int, k as int).push(cs@[k as int]));
        k += 1;
    }
    value
}

impl Str {
    /// The text of `s` from byte `span.start` to byte `span.end`, both
    /// inclusive; both ends must fall on character boundaries.
    pub fn new(span: Span, s: &str) -> (r: Str)
        requires
            span.start <= span.end < s.spec_bytes().len(),
            is_char_boundary(s.spec_bytes(), span.start as int),
            is_char_boundary(s.spec_bytes(), span.end + 1),
        ensures
            r.span == span,
            encode_utf8(r.value@) == s.spec_bytes().subrange(span.start as int, span.end + 1),
    {
        let total: usize = s.as_bytes().len();
        let ghost bytes = s.spec_bytes();
        let (_, tail) = s.split_at(span.start);
        let cut: usize = span.end + 1 - span.start;
        proof {
            let tb = tail.spec_bytes();
            assert(tb =~= bytes.subrange(span.start as int, bytes.len() as int));
            vstd::utf8::encode_utf8_valid_utf8(s@);
            vstd::utf8::encode_utf8_valid_utf8(tail@);
            if span.end + 1 < bytes.len() {
                vstd::utf8::is_char_boundary_iff_not_is_continuation_byte(bytes, span.end + 1);
                vstd::utf8::is_char_boundary_iff_not_is_continuation_byte(tb, cut as int);
                assert(tb[cut as int] == bytes[span.end + 1]);
            } else {
                vstd::utf8::is_char_boundary_start_end_of_seq(tb);
                assert(cut == tb.len());
            }
        }
        let (piece, _) = tail.split_at(cut);
        proof {
            assert(piece.spec_bytes() =~= bytes.subrange(span.start as int, span.end + 1));
        }
        Str { span, value: piece.to_owned() }
    }

    pub fn value(&self) -> (r: &str)
        ensures
            r@ == self.value@,
    {
        self.value.as_str()
    }
}

} // verus!
