//! Splitting a source text into tokens.
use vstd::prelude::*;
use vstd::string::StringSliceAdditionalSpecFns;
use vstd::string::StrSliceExecFns;
use vstd::utf8::*;
use crate::error::{Failure, ParseError};
use crate::node::{lemma_text_counts, start_view, Position, PositionView, Span, SpanView};
use crate::text::{at_ascii_edge, lemma_edge_of_str, text_between, text_of};

verus! {

broadcast use vstd::utf8::encode_utf8_decode_utf8;

#[derive(Debug, PartialEq, Eq, Clone, Copy, Structural)]
pub enum TokenKind {
    /// End of Input
    Eoi,
    NewLine,
    WhiteSpace,
    LineComment,
    BlockComment,
    Comma,
    Colon,
    OpenSquareBracket,
    ClosedSquareBracket,
    OpenCurlyBrace,
    ClosedCurlyBrace,
    NullLiteral,
    BooleanLiteral,
    NumberLiteral,
    StringLiteral,
}

/// A set of bytes that a run of the input may be made of.
#[derive(PartialEq, Eq, Clone, Copy, Structural)]
pub enum ByteClass {
    /// Tab, vertical tab, form feed and space.
    Blank,
    /// The ASCII digits.
    Digit,
    /// Every byte but line feed and carriage return.
    NotLineEnd,
    /// Every byte but the one given.
    Except(u8),
}

pub open spec fn is_digit(c: u8) -> bool {
    0x30 <= c <= 0x39
}

pub open spec fn in_class(k: ByteClass, c: u8) -> bool {
    match k {
        ByteClass::Blank => c == 0x09 || c == 0x0b || c == 0x0c || c == 0x20,
        ByteClass::Digit => is_digit(c),
        ByteClass::NotLineEnd => c != 0x0a && c != 0x0d,
        ByteClass::Except(x) => c != x,
    }
}

/// An ASCII word character: a letter, a digit or an underscore.
pub open spec fn is_ascii_word(c: u8) -> bool {
    is_digit(c) || (0x41 <= c <= 0x5a) || (0x61 <= c <= 0x7a) || c == 0x5f
}

/// Whether `c` is a Unicode word character: alphabetic, a mark, a decimal
/// digit, connector punctuation or a join control.
pub uninterp spec fn is_word_char(c: char) -> bool;

/// Relies on `regex::Regex::is_match` with the Perl class `\w`, which the
/// regex crate documents as the Unicode word characters.
#[verifier::external_body]
fn word_char(c: char) -> (r: bool)
    ensures
        r == is_word_char(c),
{
    let mut buf = [0u8; 4];
    regex::Regex::new(r"^\w$").unwrap().is_match(c.encode_utf8(&mut buf))
}

/// No word character starts at offset `k` of `s`: `k` is the end, or the
/// character there is not a word character.
pub open spec fn word_ends_at(s: Seq<u8>, k: int) -> bool {
    ||| k == s.len()
    ||| (0 <= k < s.len() && s[k] < 0x80 && !is_ascii_word(s[k]))
    ||| (0 <= k < s.len() && s[k] >= 0x80 && !is_word_char(decode_utf8(s.subrange(k, s.len() as int))[0]))
}

/// The length of the longest run of bytes of class `k` at offset `i` of `s`.
pub open spec fn run(s: Seq<u8>, i: int, k: ByteClass) -> nat
    decreases s.len() - i,
{
    if 0 <= i < s.len() && in_class(k, s[i]) {
        1 + run(s, i + 1, k)
    } else {
        0
    }
}

/// The offset of the first `*/` in `s` at or after offset `i`.
pub open spec fn comment_close(s: Seq<u8>, i: int) -> Option<nat>
    decreases s.len() - i,
{
    if i < 0 || i + 1 >= s.len() {
        None
    } else if s[i] == 0x2a && s[i + 1] == 0x2f {
        Some(i as nat)
    } else {
        comment_close(s, i + 1)
    }
}

/// `s` holds the word `w` at offset `i`, and no word character follows it.
pub open spec fn word_at(s: Seq<u8>, i: int, w: Seq<u8>) -> bool {
    &&& 0 <= i
    &&& i + w.len() <= s.len()
    &&& s.subrange(i, i + w.len()) == w
    &&& word_ends_at(s, i + w.len())
}

pub open spec fn null_word() -> Seq<u8> {
    seq![0x6eu8, 0x75u8, 0x6cu8, 0x6cu8]
}

pub open spec fn false_word() -> Seq<u8> {
    seq![0x66u8, 0x61u8, 0x6cu8, 0x73u8, 0x65u8]
}

pub open spec fn true_word() -> Seq<u8> {
    seq![0x74u8, 0x72u8, 0x75u8, 0x65u8]
}

pub open spec fn is_quote(c: u8) -> bool {
    c == 0x22 || c == 0x27
}

/// The single-byte tokens.
pub open spec fn punctuation(c: u8) -> Option<TokenKind> {
    if c == 0x2c {
        Some(TokenKind::Comma)
    } else if c == 0x3a {
        Some(TokenKind::Colon)
    } else if c == 0x5b {
        Some(TokenKind::OpenSquareBracket)
    } else if c == 0x5d {
        Some(TokenKind::ClosedSquareBracket)
    } else if c == 0x7b {
        Some(TokenKind::OpenCurlyBrace)
    } else if c == 0x7d {
        Some(TokenKind::ClosedCurlyBrace)
    } else {
        None
    }
}

/// A quoted string at offset `i` with quote byte `q`: its length, quotes included.
pub open spec fn quoted(s: Seq<u8>, i: int, q: u8) -> Option<nat> {
    if s[i] == q && i + 1 + run(s, i + 1, ByteClass::Except(q)) < s.len() {
        Some(run(s, i + 1, ByteClass::Except(q)) + 2)
    } else {
        None
    }
}

/// The token that starts at offset `i` of `s`, with its length in bytes.
/// The recognizers are tried in a fixed order and the first that matches wins:
/// `\n\r`, `\n`, blanks, a line comment, a block comment, the punctuation,
/// `null`, `false`, `true`, a decimal number, an integer, a string in double
/// quotes and a string in single quotes. Digits are the ASCII digits only: a
/// number literal always reads as a decimal number.
pub open spec fn recognize(s: Seq<u8>, i: int) -> Option<(TokenKind, nat)> {
    if i < 0 || i >= s.len() {
        None
    } else if s[i] == 0x0a && i + 1 < s.len() && s[i + 1] == 0x0d {
        Some((TokenKind::NewLine, 2))
    } else if s[i] == 0x0a {
        Some((TokenKind::NewLine, 1))
    } else if in_class(ByteClass::Blank, s[i]) {
        Some((TokenKind::WhiteSpace, run(s, i, ByteClass::Blank)))
    } else if s[i] == 0x2f && i + 1 < s.len() && s[i + 1] == 0x2f {
        Some((TokenKind::LineComment, 2 + run(s, i + 2, ByteClass::NotLineEnd)))
    } else if s[i] == 0x2f && i + 1 < s.len() && s[i + 1] == 0x2a && comment_close(s, i + 2) is Some {
        Some((TokenKind::BlockComment, (comment_close(s, i + 2)->0 + 2 - i) as nat))
    } else if punctuation(s[i]) is Some {
        Some((punctuation(s[i])->0, 1))
    } else if word_at(s, i, null_word()) {
        Some((TokenKind::NullLiteral, 4))
    } else if word_at(s, i, false_word()) {
        Some((TokenKind::BooleanLiteral, 5))
    } else if word_at(s, i, true_word()) {
        Some((TokenKind::BooleanLiteral, 4))
    } else if is_digit(s[i]) {
        let d = run(s, i, ByteClass::Digit);
        if i + d < s.len() && s[i + d] == 0x2e && run(s, i + d + 1, ByteClass::Digit) > 0 {
            Some((TokenKind::NumberLiteral, d + 1 + run(s, i + d + 1, ByteClass::Digit)))
        } else {
            Some((TokenKind::NumberLiteral, d))
        }
    } else if quoted(s, i, 0x22) is Some {
        Some((TokenKind::StringLiteral, quoted(s, i, 0x22)->0))
    } else if quoted(s, i, 0x27) is Some {
        Some((TokenKind::StringLiteral, quoted(s, i, 0x27)->0))
    } else {
        None
    }
}

proof fn lemma_run(s: Seq<u8>, i: int, k: ByteClass)
    requires
        0 <= i <= s.len(),
    ensures
        i + run(s, i, k) <= s.len(),
        i + run(s, i, k) == s.len() || !in_class(k, s[i + run(s, i, k)]),
        forall|j: int| i <= j < i + run(s, i, k) ==> in_class(k, #[trigger] s[j]),
    decreases s.len() - i,
{
    if i < s.len() && in_class(k, s[i]) {
        lemma_run(s, i + 1, k);
    }
}

proof fn lemma_comment_close(s: Seq<u8>, i: int)
    requires
        0 <= i,
    ensures
        comment_close(s, i) is Some ==> {
            let j = comment_close(s, i)->0 as int;
            i <= j && j + 1 < s.len() && s[j] == 0x2a && s[j + 1] == 0x2f
        },
    decreases s.len() - i,
{
    if i + 1 < s.len() && !(s[i] == 0x2a && s[i + 1] == 0x2f) {
        lemma_comment_close(s, i + 1);
    }
}

/// A recognized token is not empty, lies within the input and ends next to
/// an ASCII byte.
pub proof fn lemma_recognize(s: Seq<u8>, i: int)
    requires
        0 <= i < s.len(),
    ensures
        recognize(s, i) is Some ==> {
            let n = (recognize(s, i)->0).1 as int;
            &&& 1 <= n
            &&& i + n <= s.len()
            &&& at_ascii_edge(s, i + n)
            &&& (recognize(s, i)->0).0 != TokenKind::Eoi
            &&& ((recognize(s, i)->0).0 == TokenKind::StringLiteral ==> n >= 2 && is_quote(s[i])
                && s[i + n - 1] == s[i])
            &&& ((recognize(s, i)->0).0 == TokenKind::NumberLiteral ==> forall|j: int|
                i <= j < i + n ==> is_digit(#[trigger] s[j]) || s[j] == 0x2e)
            &&& ((recognize(s, i)->0).0 == TokenKind::NullLiteral ==> s.subrange(i, i + n)
                == null_word())
            &&& ((recognize(s, i)->0).0 == TokenKind::BooleanLiteral ==> s.subrange(i, i + n)
                == true_word() || s.subrange(i, i + n) == false_word())
        },
{
    lemma_run(s, i, ByteClass::Blank);
    lemma_run(s, i + 1, ByteClass::Except(0x22));
    lemma_run(s, i + 1, ByteClass::Except(0x27));
    lemma_run(s, i, ByteClass::Digit);
    if i + 2 <= s.len() {
        lemma_run(s, i + 2, ByteClass::NotLineEnd);
        lemma_comment_close(s, i + 2);
    }
    let d = run(s, i, ByteClass::Digit);
    if i + d + 1 <= s.len() {
        lemma_run(s, i + d + 1, ByteClass::Digit);
    }
    if word_at(s, i, null_word()) {
        assert(s[i + 3] == s.subrange(i, i + 4)[3]);
    }
    if word_at(s, i, false_word()) {
        assert(s[i + 4] == s.subrange(i, i + 5)[4]);
    }
    if word_at(s, i, true_word()) {
        assert(s[i + 3] == s.subrange(i, i + 4)[3]);
    }
}

fn byte_in_class(k: ByteClass, c: u8) -> (r: bool)
    ensures
        r == in_class(k, c),
{
    match k {
        ByteClass::Blank => c == 0x09 || c == 0x0b || c == 0x0c || c == 0x20,
        ByteClass::Digit => 0x30 <= c && c <= 0x39,
        ByteClass::NotLineEnd => c != 0x0a && c != 0x0d,
        ByteClass::Except(x) => c != x,
    }
}

fn run_at(s: &[u8], i: usize, k: ByteClass) -> (r: usize)
    requires
        i <= s@.len(),
    ensures
        r == run(s@, i as int, k),
{
    let n = s.len();
    let mut j = i;
    while j < n && byte_in_class(k, s[j])
        invariant
            n == s@.len(),
            i <= j <= n,
            run(s@, i as int, k) == (j - i) + run(s@, j as int, k),
        decreases n - j,
    {
        j = j + 1;
    }
    j - i
}

fn comment_close_at(s: &[u8], i: usize) -> (r: Option<usize>)
    ensures
        match r {
            Some(j) => comment_close(s@, i as int) == Some(j as nat),
            None => comment_close(s@, i as int) is None,
        },
{
    let n = s.len();
    let mut j = i;
    while j < n && j + 1 < n
        invariant
            n == s@.len(),
            i <= j,
            comment_close(s@, i as int) == comment_close(s@, j as int),
        decreases n - j,
    {
        if s[j] == 0x2a && s[j + 1] == 0x2f {
            return Some(j);
        }
        j = j + 1;
    }
    None
}

fn word_at_exec(src: &str, i: usize, w: &Vec<u8>) -> (r: bool)
    requires
        w@.len() > 0,
        forall|k: int| 0 <= k < w@.len() ==> #[trigger] w@[k] < 0x80,
    ensures
        r == word_at(src.spec_bytes(), i as int, w@),
{
    let s = src.as_bytes();
    let n = s.len();
    if w.len() > n || i > n - w.len() {
        return false;
    }
    let mut k: usize = 0;
    while k < w.len()
        invariant
            i + w@.len() <= n == s@.len(),
            s@ == src.spec_bytes(),
            k <= w@.len(),
            forall|m: int| 0 <= m < k ==> s@[i + m] == w@[m],
        decreases w@.len() - k,
    {
        if s[i + k] != w[k] {
            assert(s@.subrange(i as int, i + w@.len())[k as int] != w@[k as int]);
            return false;
        }
        k = k + 1;
    }
    assert(s@.subrange(i as int, i + w@.len()) =~= w@);
    let end = i + w.len();
    if end == n {
        return true;
    }
    let c = s[end];
    if c < 0x80 {
        return !((0x30 <= c && c <= 0x39) || (0x41 <= c && c <= 0x5a) || (0x61 <= c && c <= 0x7a)
            || c == 0x5f);
    }
    proof {
        assert(s@[end - 1] == w@[w@.len() - 1]);
        lemma_edge_of_str(src, end as int);
    }
    let (_, rest) = src.split_at(end);
    proof {
        assert(rest.spec_bytes().len() > 0);
        if rest@.len() == 0 {
            assert(encode_utf8(rest@) =~= Seq::<u8>::empty());
        }
    }
    let ch = rest.get_char(0);
    !word_char(ch)
}

fn punctuation_of(c: u8) -> (r: Option<TokenKind>)
    ensures
        r == punctuation(c),
{
    if c == 0x2c {
        Some(TokenKind::Comma)
    } else if c == 0x3a {
        Some(TokenKind::Colon)
    } else if c == 0x5b {
        Some(TokenKind::OpenSquareBracket)
    } else if c == 0x5d {
        Some(TokenKind::ClosedSquareBracket)
    } else if c == 0x7b {
        Some(TokenKind::OpenCurlyBrace)
    } else if c == 0x7d {
        Some(TokenKind::ClosedCurlyBrace)
    } else {
        None
    }
}

fn quoted_at(s: &[u8], i: usize, q: u8) -> (r: Option<usize>)
    requires
        i < s@.len(),
    ensures
        match r {
            Some(n) => quoted(s@, i as int, q) == Some(n as nat),
            None => quoted(s@, i as int, q) is None,
        },
{
    proof {
        lemma_run(s@, i + 1, ByteClass::Except(q));
    }
    if s[i] != q {
        return None;
    }
    let r = run_at(s, i + 1, ByteClass::Except(q));
    if i + 1 + r < s.len() {
        Some(r + 2)
    } else {
        None
    }
}

/// Finds the token that starts at offset `i` of `s`, with its length.
pub fn recognize_at(src: &str, i: usize) -> (r: Option<(TokenKind, usize)>)
    requires
        i < src.spec_bytes().len(),
    ensures
        match r {
            Some((k, n)) => recognize(src.spec_bytes(), i as int) == Some((k, n as nat)),
            None => recognize(src.spec_bytes(), i as int) is None,
        },
{
    let s = src.as_bytes();
    let n = s.len();
    proof {
        lemma_recognize(s@, i as int);
        lemma_run(s@, i as int, ByteClass::Digit);
    }
    let c = s[i];
    if c == 0x0a && i + 1 < n && s[i + 1] == 0x0d {
        return Some((TokenKind::NewLine, 2));
    }
    if c == 0x0a {
        return Some((TokenKind::NewLine, 1));
    }
    if byte_in_class(ByteClass::Blank, c) {
        return Some((TokenKind::WhiteSpace, run_at(s, i, ByteClass::Blank)));
    }
    if c == 0x2f && i + 1 < n && s[i + 1] == 0x2f {
        return Some((TokenKind::LineComment, 2 + run_at(s, i + 2, ByteClass::NotLineEnd)));
    }
    if c == 0x2f && i + 1 < n && s[i + 1] == 0x2a {
        if let Some(j) = comment_close_at(s, i + 2) {
            proof {
                lemma_comment_close(s@, i + 2);
            }
            return Some((TokenKind::BlockComment, j + 2 - i));
        }
    }
    if let Some(k) = punctuation_of(c) {
        return Some((k, 1));
    }
    if word_at_exec(src, i, &vec![0x6e, 0x75, 0x6c, 0x6c]) {
        return Some((TokenKind::NullLiteral, 4));
    }
    if word_at_exec(src, i, &vec![0x66, 0x61, 0x6c, 0x73, 0x65]) {
        return Some((TokenKind::BooleanLiteral, 5));
    }
    if word_at_exec(src, i, &vec![0x74, 0x72, 0x75, 0x65]) {
        return Some((TokenKind::BooleanLiteral, 4));
    }
    if 0x30 <= c && c <= 0x39 {
        let d = run_at(s, i, ByteClass::Digit);
        if i + d < n && s[i + d] == 0x2e {
            let e = run_at(s, i + d + 1, ByteClass::Digit);
            if e > 0 {
                return Some((TokenKind::NumberLiteral, d + 1 + e));
            }
        }
        return Some((TokenKind::NumberLiteral, d));
    }
    if let Some(m) = quoted_at(s, i, 0x22) {
        return Some((TokenKind::StringLiteral, m));
    }
    if let Some(m) = quoted_at(s, i, 0x27) {
        return Some((TokenKind::StringLiteral, m));
    }
    None
}

/// The mathematical value of a token: its kind, its text and its span.
pub struct TokenView {
    pub kind: TokenKind,
    pub raw: Seq<char>,
    pub span: SpanView,
}

#[derive(Debug)]
pub struct Token {
    kind: TokenKind,
    raw: String,
    span: Span,
}

impl View for Token {
    type V = TokenView;

    closed spec fn view(&self) -> TokenView {
        TokenView { kind: self.kind, raw: self.raw@, span: self.span@ }
    }
}

impl Token {
    pub fn new(kind: TokenKind, raw: String, span: Span) -> (r: Token)
        ensures
            r@ == (TokenView { kind, raw: raw@, span: span@ }),
    {
        Token { kind, raw, span }
    }

    pub fn kind(&self) -> (r: &TokenKind)
        ensures
            *r == self@.kind,
    {
        &self.kind
    }

    pub fn raw(&self) -> (r: &String)
        ensures
            r@ == self@.raw,
    {
        &self.raw
    }

    pub fn span(&self) -> (r: &Span)
        ensures
            r@ == self@.span,
    {
        &self.span
    }
}

/// The views of a sequence of tokens.
pub open spec fn token_views(v: Seq<Token>) -> Seq<TokenView> {
    v.map_values(|t: Token| t@)
}

/// Where the scan stands after a token of kind `k` with bytes `t`: line
/// breaks and block comments move by lines, every other token by columns.
pub open spec fn step(p: PositionView, k: TokenKind, t: Seq<u8>) -> PositionView {
    if k == TokenKind::NewLine || k == TokenKind::BlockComment {
        p.add_text(t)
    } else {
        p.add_columns(t.len())
    }
}

/// The tokens that are never handed to the parser.
pub open spec fn is_layout(k: TokenKind) -> bool {
    k == TokenKind::NewLine || k == TokenKind::WhiteSpace
}

pub open spec fn is_comment(k: TokenKind) -> bool {
    k == TokenKind::LineComment || k == TokenKind::BlockComment
}

/// The result of scanning `s` from position `p` on: the tokens that the
/// parser sees, ended by an end-of-input token, or the first failure.
pub open spec fn lex_from(s: Seq<u8>, p: PositionView, comments: bool) -> Result<
    Seq<TokenView>,
    Failure,
>
    decreases s.len() - p.cursor,
{
    if p.cursor >= s.len() {
        Ok(seq![TokenView { kind: TokenKind::Eoi, raw: Seq::empty(), span: SpanView { start: p, end: p } }])
    } else {
        match recognize(s, p.cursor as int) {
            None => Err(Failure::UnrecognizedToken { rest: text_of(s, p.cursor as int, s.len() as int) }),
            Some((k, n)) => if n == 0 || p.cursor + n > s.len() {
                // never taken: see `lemma_recognize`
                Err(Failure::InternalInconsistency)
            } else {
                let q = step(p, k, s.subrange(p.cursor as int, (p.cursor + n) as int));
                if is_layout(k) {
                    lex_from(s, q, comments)
                } else if is_comment(k) && !comments {
                    Err(Failure::CommentsNotSupported)
                } else if is_comment(k) {
                    lex_from(s, q, comments)
                } else {
                    let t = TokenView {
                        kind: k,
                        raw: text_of(s, p.cursor as int, (p.cursor + n) as int),
                        span: SpanView { start: p, end: q },
                    };
                    match lex_from(s, q, comments) {
                        Ok(rest) => Ok(seq![t] + rest),
                        Err(e) => Err(e),
                    }
                }
            },
        }
    }
}

/// The tokens of the whole source `s`.
pub open spec fn lex(s: Seq<u8>, comments: bool) -> Result<Seq<TokenView>, Failure> {
    lex_from(s, start_view(), comments)
}

/// The bytes of a source text.
pub open spec fn source_bytes(source: &String) -> Seq<u8> {
    encode_utf8(source@)
}

/// `done` followed by the outcome `rest`.
pub open spec fn after(done: Seq<TokenView>, rest: Result<Seq<TokenView>, Failure>) -> Result<
    Seq<TokenView>,
    Failure,
> {
    match rest {
        Ok(r) => Ok(done + r),
        Err(e) => Err(e),
    }
}

/// `t` stands in `s` where its span says, and its text is that part of `s`.
pub open spec fn token_fits(s: Seq<u8>, t: TokenView) -> bool {
    let a = t.span.start.cursor as int;
    let b = t.span.end.cursor as int;
    &&& a <= b <= s.len()
    &&& at_ascii_edge(s, a)
    &&& at_ascii_edge(s, b)
    &&& t.raw == text_of(s, a, b)
    &&& (t.kind == TokenKind::StringLiteral ==> a + 2 <= b && is_quote(s[a]) && s[b - 1] == s[a])
    &&& (t.kind == TokenKind::NumberLiteral ==> forall|k: int|
        a <= k < b ==> is_digit(#[trigger] s[k]) || s[k] == 0x2e)
    &&& (t.kind == TokenKind::NullLiteral ==> s.subrange(a, b) == null_word())
    &&& (t.kind == TokenKind::BooleanLiteral ==> s.subrange(a, b) == true_word() || s.subrange(
        a,
        b,
    ) == false_word())
}

/// Every token of `ts` fits `s`, and the tokens follow each other in `s`.
pub open spec fn tokens_fit(s: Seq<u8>, ts: Seq<TokenView>) -> bool {
    &&& forall|k: int| 0 <= k < ts.len() ==> token_fits(s, #[trigger] ts[k])
    &&& forall|j: int, k: int|
        0 <= j < k < ts.len() ==> #[trigger] ts[j].span.end.cursor <= #[trigger] ts[k].span.start.cursor
}

/// The tokens of a successful scan fit the source.
pub proof fn lemma_lex_fits(s: Seq<u8>, p: PositionView, comments: bool)
    requires
        p.cursor <= s.len(),
        at_ascii_edge(s, p.cursor as int),
    ensures
        lex_from(s, p, comments) is Ok ==> {
            let ts = lex_from(s, p, comments)->Ok_0;
            &&& tokens_fit(s, ts)
            &&& ts.len() > 0
            &&& ts.last().kind == TokenKind::Eoi
            &&& forall|k: int| 0 <= k < ts.len() ==> p.cursor <= #[trigger] ts[k].span.start.cursor
        },
    decreases s.len() - p.cursor,
{
    if p.cursor >= s.len() {
        assert(s.subrange(s.len() as int, s.len() as int) =~= Seq::<u8>::empty());
    } else {
        lemma_recognize(s, p.cursor as int);
        if let Some((k, n)) = recognize(s, p.cursor as int) {
            let q = step(p, k, s.subrange(p.cursor as int, (p.cursor + n) as int));
            lemma_lex_fits(s, q, comments);
            if lex_from(s, p, comments) is Ok && !is_layout(k) && !is_comment(k) {
                let rest = lex_from(s, q, comments)->Ok_0;
                let ts = lex_from(s, p, comments)->Ok_0;
                assert(ts[0].span.end == q);
                assert forall|j: int| 1 <= j < ts.len() implies ts[j] == rest[j - 1] by {}
                if k == TokenKind::NumberLiteral {
                    assert forall|j: int|
                        p.cursor <= j < p.cursor + n implies is_digit(#[trigger] s[j]) || s[j] == 0x2e by {}
                }
            }
        }
    }
}

/// Whether the scan of `s` from `p`, skipping comments, meets a comment
/// before it ends or fails.
pub open spec fn meets_comment(s: Seq<u8>, p: PositionView) -> bool
    decreases s.len() - p.cursor,
{
    if p.cursor >= s.len() {
        false
    } else {
        match recognize(s, p.cursor as int) {
            None => false,
            Some((k, n)) => if n == 0 || p.cursor + n > s.len() {
                false
            } else if is_comment(k) {
                true
            } else {
                meets_comment(s, step(p, k, s.subrange(p.cursor as int, (p.cursor + n) as int)))
            },
        }
    }
}

/// A scan that may not skip comments fails on the first comment it meets,
/// and is otherwise the same as a scan that may.
pub proof fn lemma_comments_refused(s: Seq<u8>, p: PositionView)
    ensures
        meets_comment(s, p) ==> lex_from(s, p, false) == Err::<Seq<TokenView>, Failure>(
            Failure::CommentsNotSupported,
        ),
        !meets_comment(s, p) ==> lex_from(s, p, false) == lex_from(s, p, true),
    decreases s.len() - p.cursor,
{
    if p.cursor < s.len() {
        if let Some((k, n)) = recognize(s, p.cursor as int) {
            if n != 0 && p.cursor + n <= s.len() && !is_comment(k) {
                lemma_comments_refused(
                    s,
                    step(p, k, s.subrange(p.cursor as int, (p.cursor + n) as int)),
                );
            }
        }
    }
}

proof fn lemma_after_after(
    a: Seq<TokenView>,
    b: Seq<TokenView>,
    r: Result<Seq<TokenView>, Failure>,
)
    ensures
        after(a, after(b, r)) == after(a + b, r),
{
    if let Ok(x) = r {
        assert(a + (b + x) =~= (a + b) + x);
    }
}

pub struct Tokenizer {
    comments: bool,
}

impl Tokenizer {
    /// Whether comments are skipped (rather than refused).
    pub closed spec fn allows_comments(&self) -> bool {
        self.comments
    }

    pub fn new(comments: bool) -> (r: Tokenizer)
        ensures
            r.allows_comments() == comments,
    {
        Tokenizer { comments }
    }

    /// Splits `source` into the tokens that the parser reads, ended by an
    /// end-of-input token.
    pub fn tokenize(&mut self, source: &String) -> (r: Result<Vec<Token>, ParseError>)
        requires
            source_bytes(source).len() < usize::MAX,
        ensures
            final(self).allows_comments() == old(self).allows_comments(),
            match r {
                Ok(v) => {
                    &&& lex(source_bytes(source), old(self).allows_comments()) == Ok::<
                        Seq<TokenView>,
                        Failure,
                    >(token_views(v@))
                    &&& tokens_fit(source_bytes(source), token_views(v@))
                    &&& v@.len() > 0
                    &&& token_views(v@).last().kind == TokenKind::Eoi
                },
                Err(e) => lex(source_bytes(source), old(self).allows_comments()) == Err::<
                    Seq<TokenView>,
                    Failure,
                >(e@),
            },
    {
        let s = source.as_str();
        let b = s.as_bytes();
        let n = b.len();
        let ghost bytes = b@;
        let comments = self.comments;
        let mut pos = Position::start();
        let mut result: Vec<Token> = Vec::new();
        while pos.cursor() < n
            invariant
                bytes == b@,
                bytes == s.spec_bytes(),
                bytes == source_bytes(source),
                n == bytes.len(),
                n < usize::MAX,
                comments == self.comments,
                pos@.cursor <= n,
                pos@.line <= pos@.cursor + 1,
                pos@.column <= pos@.cursor,
                at_ascii_edge(bytes, pos@.cursor as int),
                lex(bytes, comments) == after(token_views(result@), lex_from(bytes, pos@, comments)),
            decreases n - pos@.cursor,
        {
            let i = pos.cursor();
            proof {
                lemma_recognize(bytes, i as int);
                lemma_edge_of_str(s, i as int);
                lemma_edge_of_str(s, n as int);
            }
            match recognize_at(s, i) {
                None => {
                    let rest = text_between(s, i, n);
                    return Err(ParseError::UnrecognizedToken { rest });
                },
                Some((kind, len)) => {
                    proof {
                        lemma_edge_of_str(s, i + len);
                    }
                    let raw = text_between(s, i, i + len);
                    let ghost t = bytes.subrange(i as int, i + len);
                    let before = pos;
                    if matches!(kind, TokenKind::NewLine) || matches!(kind, TokenKind::BlockComment) {
                        proof {
                            lemma_text_counts(t);
                        }
                        pos.add_from_str(raw.as_str());
                    } else {
                        pos.add_columns(len);
                    }
                    assert(pos@ == step(before@, kind, t));
                    if matches!(kind, TokenKind::NewLine) || matches!(kind, TokenKind::WhiteSpace) {
                        assert(lex_from(bytes, before@, comments) == lex_from(bytes, pos@, comments));
                    } else if matches!(kind, TokenKind::LineComment) || matches!(kind, TokenKind::BlockComment) {
                        if !comments {
                            return Err(ParseError::CommentsNotSupported);
                        }
                        assert(lex_from(bytes, before@, comments) == lex_from(bytes, pos@, comments));
                    } else {
                        let ghost old_views = token_views(result@);
                        let token = Token::new(kind, raw, Span::new(before, pos));
                        assert(lex_from(bytes, before@, comments) == after(
                            seq![token@],
                            lex_from(bytes, pos@, comments),
                        ));
                        proof {
                            lemma_after_after(old_views, seq![token@], lex_from(bytes, pos@, comments));
                        }
                        result.push(token);
                        assert(token_views(result@) =~= old_views + seq![token@]);
                    }
                },
            }
        }
        let end = Token::new(TokenKind::Eoi, String::new(), Span::collapsed(pos));
        let ghost old_views = token_views(result@);
        result.push(end);
        assert(token_views(result@) =~= old_views + seq![end@]);
        assert(lex_from(bytes, pos@, comments) == Ok::<Seq<TokenView>, Failure>(seq![end@]));
        proof {
            lemma_lex_fits(bytes, start_view(), comments);
        }
        Ok(result)
    }
}

} // verus!
