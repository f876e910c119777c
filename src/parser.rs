//! Reading a document: a recursive descent over the tokens of a source text.
use vstd::prelude::*;
use vstd::string::StringSliceAdditionalSpecFns;
use vstd::utf8::decode_utf8;
use crate::error::{Failure, ParseError};
use crate::node::{
    entry_seq, start_view, tree_seq, ArrayNode, BooleanNode, Node, NullNode, NumberNode,
    NumberNodeValue, NumberValue, ObjectNode, Span, SpanView, StringNode, Tree,
};
use crate::text::{at_ascii_edge, lemma_decode_ascii, lemma_edge_of_str, text_between, text_of};
use crate::tokenizer::{
    false_word, is_digit, lemma_comments_refused, lemma_lex_fits, lex, meets_comment, null_word,
    source_bytes, token_fits, token_views, tokens_fit, true_word, Token, TokenKind, TokenView,
    Tokenizer,
};

verus! {

/// The kind of the token at index `i`; past the last token, the end of input.
pub open spec fn kind_at(ts: Seq<TokenView>, i: int) -> TokenKind {
    if 0 <= i < ts.len() {
        ts[i].kind
    } else {
        TokenKind::Eoi
    }
}

/// The failure of requiring a token of kind `expected` at index `i`.
pub open spec fn unexpected(ts: Seq<TokenView>, i: int, expected: TokenKind) -> Failure {
    Failure::UnexpectedToken { found: kind_at(ts, i), expected }
}

/// The number that the decimal digits `b` stand for.
pub open spec fn digits_value(b: Seq<u8>) -> int
    decreases b.len(),
{
    if b.len() == 0 {
        0
    } else {
        digits_value(b.drop_last()) * 10 + (b.last() as int - 0x30)
    }
}

/// The bytes of the source that token `t` covers.
pub open spec fn token_bytes(s: Seq<u8>, t: TokenView) -> Seq<u8> {
    s.subrange(t.span.start.cursor as int, t.span.end.cursor as int)
}

/// The text between the quotes of a string token.
pub open spec fn string_value(s: Seq<u8>, t: TokenView) -> Seq<char> {
    text_of(s, (t.span.start.cursor + 1) as int, (t.span.end.cursor - 1) as int)
}

/// The tree of a null, boolean, number or string token.
pub open spec fn leaf(s: Seq<u8>, t: TokenView) -> Result<Tree, Failure> {
    let b = token_bytes(s, t);
    if t.kind == TokenKind::NullLiteral {
        Ok(Tree::Null { span: t.span, raw: t.raw })
    } else if t.kind == TokenKind::BooleanLiteral {
        Ok(Tree::Boolean { span: t.span, raw: t.raw, value: b == true_word() })
    } else if t.kind == TokenKind::NumberLiteral {
        if b.contains(0x2e) {
            Ok(Tree::Number { span: t.span, raw: t.raw, value: NumberValue::Float(t.raw) })
        } else if digits_value(b) <= i64::MAX {
            Ok(Tree::Number { span: t.span, raw: t.raw, value: NumberValue::Int(digits_value(b)) })
        } else {
            Err(Failure::NumberOverflow { raw: t.raw })
        }
    } else if t.kind == TokenKind::StringLiteral {
        Ok(Tree::Str { span: t.span, raw: t.raw, value: string_value(s, t) })
    } else {
        Err(Failure::InternalInconsistency)
    }
}

pub open spec fn is_leaf(k: TokenKind) -> bool {
    k == TokenKind::NullLiteral || k == TokenKind::BooleanLiteral || k == TokenKind::NumberLiteral
        || k == TokenKind::StringLiteral
}

/// The span from the start of token `i` to the end of token `j`.
pub open spec fn joined_span(ts: Seq<TokenView>, i: int, j: int) -> SpanView {
    SpanView { start: ts[i].span.start, end: ts[j].span.end }
}

/// The source text from the start of token `i` to the end of token `j`.
pub open spec fn joined_raw(s: Seq<u8>, ts: Seq<TokenView>, i: int, j: int) -> Seq<char> {
    text_of(s, ts[i].span.start.cursor as int, ts[j].span.end.cursor as int)
}

/// `v` in front of the items of `r`.
pub open spec fn cons_item(v: Tree, r: Result<(Seq<Tree>, int), Failure>) -> Result<
    (Seq<Tree>, int),
    Failure,
> {
    match r {
        Ok((vs, e)) => Ok((seq![v] + vs, e)),
        Err(e) => Err(e),
    }
}

/// `m` in front of the members of `r`.
pub open spec fn cons_member(
    m: (Seq<char>, Tree),
    r: Result<(Seq<(Seq<char>, Tree)>, int), Failure>,
) -> Result<(Seq<(Seq<char>, Tree)>, int), Failure> {
    match r {
        Ok((ms, e)) => Ok((seq![m] + ms, e)),
        Err(e) => Err(e),
    }
}

/// The value that starts at token `i`, and the index of the token after it.
pub open spec fn value_at(s: Seq<u8>, ts: Seq<TokenView>, i: int) -> Result<(Tree, int), Failure>
    decreases ts.len() - i, 1int,
{
    let k = kind_at(ts, i);
    if is_leaf(k) {
        match leaf(s, ts[i]) {
            Ok(t) => Ok((t, i + 1)),
            Err(e) => Err(e),
        }
    } else if k == TokenKind::OpenSquareBracket {
        array_at(s, ts, i)
    } else if k == TokenKind::OpenCurlyBrace {
        object_at(s, ts, i)
    } else {
        Err(Failure::InternalInconsistency)
    }
}

/// The array that starts at token `i`.
pub open spec fn array_at(s: Seq<u8>, ts: Seq<TokenView>, i: int) -> Result<(Tree, int), Failure>
    decreases ts.len() - i, 0int,
{
    if kind_at(ts, i) != TokenKind::OpenSquareBracket {
        Err(unexpected(ts, i, TokenKind::OpenSquareBracket))
    } else {
        match items_from(s, ts, i + 1) {
            Err(e) => Err(e),
            Ok((items, j)) => if kind_at(ts, j) != TokenKind::ClosedSquareBracket {
                Err(unexpected(ts, j, TokenKind::ClosedSquareBracket))
            } else {
                Ok((
                    Tree::Array { span: joined_span(ts, i, j), raw: joined_raw(s, ts, i, j), items },
                    j + 1,
                ))
            },
        }
    }
}

/// The elements of an array from token `j` on, up to the token that ends
/// them (a `]` or the end of input), with the index of that token.
pub open spec fn items_from(s: Seq<u8>, ts: Seq<TokenView>, j: int) -> Result<
    (Seq<Tree>, int),
    Failure,
>
    decreases ts.len() - j, 2int,
{
    let k = kind_at(ts, j);
    if k == TokenKind::ClosedSquareBracket || k == TokenKind::Eoi {
        Ok((Seq::empty(), j))
    } else {
        match value_at(s, ts, j) {
            Err(e) => Err(e),
            Ok((v, m)) => if m <= j {
                // never taken: a value takes at least one token
                Err(Failure::InternalInconsistency)
            } else if kind_at(ts, m) == TokenKind::ClosedSquareBracket {
                cons_item(v, items_from(s, ts, m))
            } else if kind_at(ts, m) != TokenKind::Comma {
                Err(unexpected(ts, m, TokenKind::Comma))
            } else {
                cons_item(v, items_from(s, ts, m + 1))
            },
        }
    }
}

pub open spec fn has_key(m: Seq<(Seq<char>, Tree)>, key: Seq<char>) -> bool {
    exists|x: int| 0 <= x < m.len() && m[x].0 == key
}

/// Where the member of key `key` stands in `m`.
pub open spec fn key_position(m: Seq<(Seq<char>, Tree)>, key: Seq<char>) -> int {
    choose|x: int| 0 <= x < m.len() && m[x].0 == key
}

/// `m` with the member `key: v`: it replaces the member of the same key, or
/// else comes last.
pub open spec fn insert_member(m: Seq<(Seq<char>, Tree)>, key: Seq<char>, v: Tree) -> Seq<
    (Seq<char>, Tree),
> {
    if has_key(m, key) {
        m.update(key_position(m, key), (key, v))
    } else {
        m.push((key, v))
    }
}

/// The members of an object in which the members `ms` were written in this order.
pub open spec fn members_of(ms: Seq<(Seq<char>, Tree)>) -> Seq<(Seq<char>, Tree)>
    decreases ms.len(),
{
    if ms.len() == 0 {
        Seq::empty()
    } else {
        insert_member(members_of(ms.drop_last()), ms.last().0, ms.last().1)
    }
}

/// The members of an object stand under distinct keys, however often a key
/// was written in the source.
pub proof fn object_keys_distinct(ms: Seq<(Seq<char>, Tree)>)
    ensures
        forall|x: int, y: int|
            0 <= x < y < members_of(ms).len() ==> members_of(ms)[x].0 != members_of(ms)[y].0,
    decreases ms.len(),
{
    if ms.len() > 0 {
        object_keys_distinct(ms.drop_last());
        let m0 = members_of(ms.drop_last());
        let (key, v) = ms.last();
        let r = members_of(ms);
        if has_key(m0, key) {
            let p = key_position(m0, key);
            assert(r == m0.update(p, (key, v)));
            assert forall|x: int, y: int| 0 <= x < y < r.len() implies r[x].0 != r[y].0 by {
                assert(r[x].0 == m0[x].0);
                assert(r[y].0 == m0[y].0);
            }
        } else {
            assert(r == m0.push((key, v)));
            assert forall|x: int, y: int| 0 <= x < y < r.len() implies r[x].0 != r[y].0 by {
                assert(r[x].0 == m0[x].0);
            }
        }
    }
}

/// The object that starts at token `i`.
pub open spec fn object_at(s: Seq<u8>, ts: Seq<TokenView>, i: int) -> Result<(Tree, int), Failure>
    decreases ts.len() - i, 0int,
{
    if kind_at(ts, i) != TokenKind::OpenCurlyBrace {
        Err(unexpected(ts, i, TokenKind::OpenCurlyBrace))
    } else {
        match members_from(s, ts, i + 1) {
            Err(e) => Err(e),
            Ok((ms, j)) => if kind_at(ts, j) != TokenKind::ClosedCurlyBrace {
                Err(unexpected(ts, j, TokenKind::ClosedCurlyBrace))
            } else {
                Ok((
                    Tree::Object {
                        span: joined_span(ts, i, j),
                        raw: joined_raw(s, ts, i, j),
                        entries: members_of(ms),
                    },
                    j + 1,
                ))
            },
        }
    }
}

/// The members of an object from token `j` on, in source order, up to the
/// token that ends them (a `}` or the end of input), with its index.
pub open spec fn members_from(s: Seq<u8>, ts: Seq<TokenView>, j: int) -> Result<
    (Seq<(Seq<char>, Tree)>, int),
    Failure,
>
    decreases ts.len() - j, 2int,
{
    let k = kind_at(ts, j);
    if k == TokenKind::ClosedCurlyBrace || k == TokenKind::Eoi {
        Ok((Seq::empty(), j))
    } else if k != TokenKind::StringLiteral {
        Err(unexpected(ts, j, TokenKind::StringLiteral))
    } else if kind_at(ts, j + 1) != TokenKind::Colon {
        Err(unexpected(ts, j + 1, TokenKind::Colon))
    } else {
        match value_at(s, ts, j + 2) {
            Err(e) => Err(e),
            Ok((v, m)) => {
                let key = string_value(s, ts[j]);
                if m <= j + 2 {
                    // never taken: a value takes at least one token
                    Err(Failure::InternalInconsistency)
                } else if kind_at(ts, m) == TokenKind::ClosedCurlyBrace {
                    cons_member((key, v), members_from(s, ts, m))
                } else if kind_at(ts, m) != TokenKind::Comma {
                    Err(unexpected(ts, m, TokenKind::Comma))
                } else {
                    cons_member((key, v), members_from(s, ts, m + 1))
                }
            },
        }
    }
}

/// The tree of a document with tokens `ts`: an array or an object.
pub open spec fn document(s: Seq<u8>, ts: Seq<TokenView>) -> Result<Tree, Failure> {
    let k = kind_at(ts, 0);
    let r = if k == TokenKind::OpenSquareBracket {
        array_at(s, ts, 0)
    } else if k == TokenKind::OpenCurlyBrace {
        object_at(s, ts, 0)
    } else {
        Err(Failure::ExpectedArrayOrObjectRoot)
    };
    match r {
        Ok((t, _)) => Ok(t),
        Err(e) => Err(e),
    }
}

/// The tree of the source `s`, or the first failure in reading it.
pub open spec fn parse_source(s: Seq<u8>, comments: bool) -> Result<Tree, Failure> {
    match lex(s, comments) {
        Ok(ts) => document(s, ts),
        Err(e) => Err(e),
    }
}

/// The items `done` followed by those of the outcome `r`.
pub open spec fn after_items(done: Seq<Tree>, r: Result<(Seq<Tree>, int), Failure>) -> Result<
    (Seq<Tree>, int),
    Failure,
> {
    match r {
        Ok((vs, e)) => Ok((done + vs, e)),
        Err(e) => Err(e),
    }
}

/// The members `done` followed by those of the outcome `r`.
pub open spec fn after_members(
    done: Seq<(Seq<char>, Tree)>,
    r: Result<(Seq<(Seq<char>, Tree)>, int), Failure>,
) -> Result<(Seq<(Seq<char>, Tree)>, int), Failure> {
    match r {
        Ok((ms, e)) => Ok((done + ms, e)),
        Err(e) => Err(e),
    }
}

proof fn lemma_after_items(done: Seq<Tree>, v: Tree, r: Result<(Seq<Tree>, int), Failure>)
    ensures
        after_items(done, cons_item(v, r)) == after_items(done.push(v), r),
{
    if let Ok((vs, e)) = r {
        assert(done + (seq![v] + vs) =~= done.push(v) + vs);
    }
}

proof fn lemma_after_members(
    done: Seq<(Seq<char>, Tree)>,
    m: (Seq<char>, Tree),
    r: Result<(Seq<(Seq<char>, Tree)>, int), Failure>,
)
    ensures
        after_members(done, cons_member(m, r)) == after_members(done.push(m), r),
{
    if let Ok((ms, e)) = r {
        assert(done + (seq![m] + ms) =~= done.push(m) + ms);
    }
}

proof fn lemma_tree_seq_push(a: Seq<Node>, n: Node)
    ensures
        tree_seq(a.push(n)) == tree_seq(a).push(n.tree()),
{
    assert(a.push(n).subrange(0, a.len() as int) =~= a);
}

proof fn lemma_entry_seq(m: Seq<(String, Node)>)
    ensures
        entry_seq(m).len() == m.len(),
        forall|x: int| 0 <= x < m.len() ==> #[trigger] entry_seq(m)[x] == (m[x].0@, m[x].1.tree()),
    decreases m.len(),
{
    if m.len() > 0 {
        let d = m.subrange(0, m.len() - 1);
        lemma_entry_seq(d);
        assert forall|x: int| 0 <= x < m.len() implies #[trigger] entry_seq(m)[x] == (
            m[x].0@,
            m[x].1.tree(),
        ) by {
            if x < m.len() - 1 {
                assert(d[x] == m[x]);
            }
        }
    }
}

/// The index of the member with key `key`, if there is one.
fn find_key(map: &Vec<(String, Node)>, key: &String) -> (r: Option<usize>)
    ensures
        match r {
            Some(k) => k < map@.len() && map@[k as int].0@ == key@,
            None => forall|x: int| 0 <= x < map@.len() ==> map@[x].0@ != key@,
        },
{
    let mut k: usize = 0;
    while k < map.len()
        invariant
            k <= map@.len(),
            forall|x: int| 0 <= x < k ==> map@[x].0@ != key@,
        decreases map@.len() - k,
    {
        if map[k].0 == *key {
            return Some(k);
        }
        k = k + 1;
    }
    None
}

/// The number that a run of digits stands for is never negative, and grows
/// as digits are added.
proof fn lemma_digits_grow(b: Seq<u8>, k: int)
    requires
        0 <= k <= b.len(),
        forall|x: int| 0 <= x < b.len() ==> is_digit(#[trigger] b[x]),
    ensures
        0 <= digits_value(b.take(k)) <= digits_value(b),
    decreases b.len(),
{
    if k == b.len() {
        assert(b.take(k) =~= b);
        lemma_digits_nonnegative(b);
    } else {
        let d = b.drop_last();
        assert(d.take(k) =~= b.take(k));
        lemma_digits_grow(d, k);
        lemma_digits_nonnegative(d);
    }
}

proof fn lemma_digits_nonnegative(b: Seq<u8>)
    requires
        forall|x: int| 0 <= x < b.len() ==> is_digit(#[trigger] b[x]),
    ensures
        0 <= digits_value(b),
    decreases b.len(),
{
    if b.len() > 0 {
        lemma_digits_nonnegative(b.drop_last());
    }
}

/// With comments disallowed, reading a source whose scan meets a comment
/// fails with `CommentsNotSupported`, wherever the comment stands (in an
/// array, in an object, before or after the root); reading any other source
/// gives what it gives with comments allowed.
pub proof fn comments_refused_where_met(s: Seq<u8>)
    ensures
        meets_comment(s, start_view()) ==> parse_source(s, false) == Err::<Tree, Failure>(
            Failure::CommentsNotSupported,
        ),
        !meets_comment(s, start_view()) ==> parse_source(s, false) == parse_source(s, true),
{
    lemma_comments_refused(s, start_view());
}

pub open spec fn tree_span(t: Tree) -> SpanView {
    match t {
        Tree::Null { span, .. } => span,
        Tree::Boolean { span, .. } => span,
        Tree::Number { span, .. } => span,
        Tree::Str { span, .. } => span,
        Tree::Array { span, .. } => span,
        Tree::Object { span, .. } => span,
    }
}

pub open spec fn tree_raw(t: Tree) -> Seq<char> {
    match t {
        Tree::Null { raw, .. } => raw,
        Tree::Boolean { raw, .. } => raw,
        Tree::Number { raw, .. } => raw,
        Tree::Str { raw, .. } => raw,
        Tree::Array { raw, .. } => raw,
        Tree::Object { raw, .. } => raw,
    }
}

/// The span of `t`, and of every node under it, lies within the source `s`,
/// and the node's text is the part of `s` between the cursors of its span.
pub open spec fn raw_is_spanned(s: Seq<u8>, t: Tree) -> bool
    decreases t,
{
    &&& tree_span(t).start.cursor <= tree_span(t).end.cursor <= s.len()
    &&& tree_raw(t) == text_of(
        s,
        tree_span(t).start.cursor as int,
        tree_span(t).end.cursor as int,
    )
    &&& match t {
        Tree::Array { items, .. } => forall|k: int|
            0 <= k < items.len() ==> raw_is_spanned(s, #[trigger] items[k]),
        Tree::Object { entries, .. } => forall|k: int|
            0 <= k < entries.len() ==> raw_is_spanned(s, #[trigger] entries[k].1),
        _ => true,
    }
}

proof fn lemma_value_spanned(s: Seq<u8>, ts: Seq<TokenView>, i: int)
    requires
        tokens_fit(s, ts),
    ensures
        value_at(s, ts, i) is Ok ==> raw_is_spanned(s, (value_at(s, ts, i)->Ok_0).0),
    decreases ts.len() - i, 1int,
{
    let k = kind_at(ts, i);
    if is_leaf(k) {
        assert(token_fits(s, ts[i]));
    } else if k == TokenKind::OpenSquareBracket {
        lemma_array_spanned(s, ts, i);
    } else if k == TokenKind::OpenCurlyBrace {
        lemma_object_spanned(s, ts, i);
    }
}

proof fn lemma_array_spanned(s: Seq<u8>, ts: Seq<TokenView>, i: int)
    requires
        tokens_fit(s, ts),
    ensures
        array_at(s, ts, i) is Ok ==> raw_is_spanned(s, (array_at(s, ts, i)->Ok_0).0),
    decreases ts.len() - i, 0int,
{
    if kind_at(ts, i) == TokenKind::OpenSquareBracket {
        lemma_items_spanned(s, ts, i + 1);
        if let Ok((items, e)) = items_from(s, ts, i + 1) {
            if kind_at(ts, e) == TokenKind::ClosedSquareBracket {
                lemma_joined_within(s, ts, i, e);
            }
        }
    }
}

proof fn lemma_items_spanned(s: Seq<u8>, ts: Seq<TokenView>, j: int)
    requires
        tokens_fit(s, ts),
    ensures
        items_from(s, ts, j) is Ok ==> {
            let (vs, e) = items_from(s, ts, j)->Ok_0;
            &&& j <= e
            &&& forall|k: int| 0 <= k < vs.len() ==> raw_is_spanned(s, #[trigger] vs[k])
        },
    decreases ts.len() - j, 2int,
{
    let k = kind_at(ts, j);
    if k != TokenKind::ClosedSquareBracket && k != TokenKind::Eoi {
        lemma_value_spanned(s, ts, j);
        if let Ok((v, m)) = value_at(s, ts, j) {
            let next = if kind_at(ts, m) == TokenKind::ClosedSquareBracket { m } else { m + 1 };
            if m > j && (kind_at(ts, m) == TokenKind::ClosedSquareBracket || kind_at(ts, m)
                == TokenKind::Comma) {
                lemma_items_spanned(s, ts, next);
                if let Ok((vs, e)) = items_from(s, ts, next) {
                    lemma_cons_all(v, vs, |t: Tree| raw_is_spanned(s, t));
                }
            }
        }
    }
}

/// What holds of `x` and of every element of `xs` holds of every element of
/// `x` followed by `xs`.
proof fn lemma_cons_all<A>(x: A, xs: Seq<A>, p: spec_fn(A) -> bool)
    requires
        p(x),
        forall|k: int| 0 <= k < xs.len() ==> p(#[trigger] xs[k]),
    ensures
        forall|k: int| 0 <= k < xs.len() + 1 ==> p(#[trigger] (seq![x] + xs)[k]),
{
    assert forall|k: int| 0 <= k < xs.len() + 1 implies p(#[trigger] (seq![x] + xs)[k]) by {
        if k > 0 {
            assert((seq![x] + xs)[k] == xs[k - 1]);
        }
    }
}

/// The span from the start of token `i` to the end of a later token `e` lies
/// within the source.
proof fn lemma_joined_within(s: Seq<u8>, ts: Seq<TokenView>, i: int, e: int)
    requires
        tokens_fit(s, ts),
        0 <= i < e < ts.len(),
    ensures
        ts[i].span.start.cursor <= ts[e].span.end.cursor <= s.len(),
{
    assert(token_fits(s, ts[i]));
    assert(token_fits(s, ts[e]));
    assert(ts[i].span.end.cursor <= ts[e].span.start.cursor);
}

proof fn lemma_object_spanned(s: Seq<u8>, ts: Seq<TokenView>, i: int)
    requires
        tokens_fit(s, ts),
    ensures
        object_at(s, ts, i) is Ok ==> raw_is_spanned(s, (object_at(s, ts, i)->Ok_0).0),
    decreases ts.len() - i, 0int,
{
    if kind_at(ts, i) == TokenKind::OpenCurlyBrace {
        lemma_members_spanned(s, ts, i + 1);
        if let Ok((ms, e)) = members_from(s, ts, i + 1) {
            lemma_members_of_spanned(s, ms);
            if kind_at(ts, e) == TokenKind::ClosedCurlyBrace {
                lemma_joined_within(s, ts, i, e);
            }
        }
    }
}

proof fn lemma_members_of_spanned(s: Seq<u8>, ms: Seq<(Seq<char>, Tree)>)
    requires
        forall|k: int| 0 <= k < ms.len() ==> raw_is_spanned(s, #[trigger] ms[k].1),
    ensures
        forall|k: int|
            0 <= k < members_of(ms).len() ==> raw_is_spanned(s, #[trigger] members_of(ms)[k].1),
    decreases ms.len(),
{
    if ms.len() > 0 {
        let d = ms.drop_last();
        assert forall|k: int| 0 <= k < d.len() implies raw_is_spanned(s, #[trigger] d[k].1) by {
            assert(d[k] == ms[k]);
        }
        lemma_members_of_spanned(s, d);
        let m0 = members_of(d);
        let (key, v) = ms.last();
        assert(raw_is_spanned(s, v));
        let r = members_of(ms);
        assert(r == insert_member(m0, key, v));
        assert forall|k: int| 0 <= k < r.len() implies raw_is_spanned(s, #[trigger] r[k].1) by {
            if has_key(m0, key) {
                let x = key_position(m0, key);
                assert(r == m0.update(x, (key, v)));
                if k != x {
                    assert(r[k] == m0[k]);
                }
            } else if k < m0.len() {
                assert(r == m0.push((key, v)));
                assert(r[k] == m0[k]);
            }
        }
    }
}

proof fn lemma_members_spanned(s: Seq<u8>, ts: Seq<TokenView>, j: int)
    requires
        tokens_fit(s, ts),
    ensures
        members_from(s, ts, j) is Ok ==> {
            let (ms, e) = members_from(s, ts, j)->Ok_0;
            &&& j <= e
            &&& forall|k: int| 0 <= k < ms.len() ==> raw_is_spanned(s, #[trigger] ms[k].1)
        },
    decreases ts.len() - j, 2int,
{
    let k = kind_at(ts, j);
    if k == TokenKind::StringLiteral && kind_at(ts, j + 1) == TokenKind::Colon {
        lemma_value_spanned(s, ts, j + 2);
        if let Ok((v, m)) = value_at(s, ts, j + 2) {
            let key = string_value(s, ts[j]);
            let next = if kind_at(ts, m) == TokenKind::ClosedCurlyBrace { m } else { m + 1 };
            if m > j + 2 && (kind_at(ts, m) == TokenKind::ClosedCurlyBrace || kind_at(ts, m)
                == TokenKind::Comma) {
                lemma_members_spanned(s, ts, next);
                if let Ok((ms, e)) = members_from(s, ts, next) {
                    lemma_cons_all(
                        (key, v),
                        ms,
                        |member: (Seq<char>, Tree)| raw_is_spanned(s, member.1),
                    );
                }
            }
        }
    }
}

/// Every node that reading a source gives, the root and each node under it,
/// has a span within the source, start before end, and holds as its text
/// exactly the part of the source between the cursors of its span.
pub proof fn parsed_text_is_spanned_source(s: Seq<u8>, comments: bool)
    ensures
        parse_source(s, comments) is Ok ==> raw_is_spanned(s, parse_source(s, comments)->Ok_0),
{
    assert(at_ascii_edge(s, 0));
    lemma_lex_fits(s, start_view(), comments);
    if let Ok(ts) = lex(s, comments) {
        lemma_array_spanned(s, ts, 0);
        lemma_object_spanned(s, ts, 0);
    }
}

/// The texts of the keywords.
proof fn lemma_keyword_texts()
    ensures
        decode_utf8(null_word()) == seq!['n', 'u', 'l', 'l'],
        decode_utf8(true_word()) == seq!['t', 'r', 'u', 'e'],
        decode_utf8(false_word()) == seq!['f', 'a', 'l', 's', 'e'],
{
    lemma_decode_ascii(null_word());
    lemma_decode_ascii(true_word());
    lemma_decode_ascii(false_word());
    assert(decode_utf8(null_word()) =~= seq!['n', 'u', 'l', 'l']);
    assert(decode_utf8(true_word()) =~= seq!['t', 'r', 'u', 'e']);
    assert(decode_utf8(false_word()) =~= seq!['f', 'a', 'l', 's', 'e']);
}

pub struct Parser {
    tokenizer: Tokenizer,
    tokens: Vec<Token>,
    index: usize,
}

impl Parser {
    /// Whether comments are skipped (rather than refused).
    pub closed spec fn allows_comments(&self) -> bool {
        self.tokenizer.allows_comments()
    }

    spec fn token_seq(&self) -> Seq<TokenView> {
        token_views(self.tokens@)
    }

    /// The tokens fit the source `s`, and the cursor is on one of them or
    /// just past the last.
    spec fn reads(&self, s: Seq<u8>) -> bool {
        &&& tokens_fit(s, self.token_seq())
        &&& self.placed()
    }

    /// The tokens end with the end of input, and the cursor is on one of them.
    spec fn placed(&self) -> bool {
        &&& self.tokens@.len() > 0
        &&& self.token_seq().last().kind == TokenKind::Eoi
        &&& self.index < self.tokens@.len()
    }

    /// Only the cursor has moved, and it is still on a token.
    spec fn moved(&self, before: &Parser) -> bool {
        &&& self.tokens@ == before.tokens@
        &&& self.tokenizer == before.tokenizer
        &&& self.index < self.tokens@.len()
    }

    fn new(comments: bool) -> (r: Parser)
        ensures
            r.allows_comments() == comments,
    {
        Parser { tokenizer: Tokenizer::new(comments), tokens: Vec::new(), index: 0 }
    }

    pub fn new_without_comments() -> (r: Parser)
        ensures
            !r.allows_comments(),
    {
        Parser::new(false)
    }

    pub fn new_with_comments() -> (r: Parser)
        ensures
            r.allows_comments(),
    {
        Parser::new(true)
    }

    fn reset(&mut self)
        ensures
            final(self).tokenizer == old(self).tokenizer,
            final(self).tokens@.len() == 0,
            final(self).index == 0,
    {
        self.tokens = Vec::new();
        self.index = 0;
    }

    /// The token `offset` places after the cursor; reading past the last
    /// token is an internal error.
    fn peek(&self, offset: usize) -> (r: Result<&Token, ParseError>)
        ensures
            match r {
                Ok(t) => self.index + offset < self.tokens@.len() && *t == self.tokens@[self.index
                    + offset],
                Err(e) => self.index + offset >= self.tokens@.len() && e
                    == ParseError::InternalInconsistency,
            },
    {
        if offset < self.tokens.len() && self.index < self.tokens.len() - offset {
            Ok(&self.tokens[self.index + offset])
        } else {
            Err(ParseError::InternalInconsistency)
        }
    }

    fn current_kind(&self) -> (r: TokenKind)
        requires
            self.index < self.tokens@.len(),
        ensures
            r == kind_at(self.token_seq(), self.index as int),
    {
        *self.tokens[self.index].kind()
    }

    /// Takes the current token if it is of kind `kind`, and gives its index.
    fn consume(&mut self, kind: TokenKind) -> (r: Result<usize, ParseError>)
        ensures
            final(self).tokens@ == old(self).tokens@,
            final(self).tokenizer == old(self).tokenizer,
            match r {
                Ok(i) => {
                    &&& i == old(self).index
                    &&& i < old(self).tokens@.len()
                    &&& kind_at(old(self).token_seq(), i as int) == kind
                    &&& final(self).index == i + 1
                },
                Err(e) => {
                    &&& final(self).index == old(self).index
                    &&& if old(self).index < old(self).tokens@.len() {
                        &&& kind_at(old(self).token_seq(), old(self).index as int) != kind
                        &&& e@ == unexpected(old(self).token_seq(), old(self).index as int, kind)
                    } else {
                        e == ParseError::InternalInconsistency
                    }
                },
            },
    {
        let n = self.tokens.len();
        let found = match self.peek(0) {
            Ok(t) => *t.kind(),
            Err(e) => return Err(e),
        };
        if found != kind {
            return Err(ParseError::UnexpectedToken { found, expected: kind });
        }
        let i = self.index;
        self.index = i + 1;
        Ok(i)
    }

    fn parse_null_literal(&mut self, src: &str) -> (r: Result<NullNode, ParseError>)
        requires
            old(self).reads(src.spec_bytes()),
        ensures
            final(self).moved(old(self)),
            ({
                let ts = old(self).token_seq();
                let i = old(self).index as int;
                match r {
                    Ok(n) => kind_at(ts, i) == TokenKind::NullLiteral && final(self).index == i + 1
                        && leaf(src.spec_bytes(), ts[i]) == Ok::<Tree, Failure>(Node::Null(n).tree())
                        && n.raw@ == seq!['n', 'u', 'l', 'l'],
                    Err(e) => kind_at(ts, i) != TokenKind::NullLiteral && e@ == unexpected(
                        ts,
                        i,
                        TokenKind::NullLiteral,
                    ),
                }
            }),
    {
        let ghost ts = self.token_seq();
        let i = match self.consume(TokenKind::NullLiteral) {
            Ok(i) => i,
            Err(e) => return Err(e),
        };
        let t = &self.tokens[i];
        proof {
            assert(t@ == ts[i as int]);
            assert(token_fits(src.spec_bytes(), ts[i as int]));
            lemma_keyword_texts();
        }
        Ok(NullNode { span: *t.span(), raw: t.raw().clone() })
    }

    fn parse_boolean_literal(&mut self, src: &str) -> (r: Result<BooleanNode, ParseError>)
        requires
            old(self).reads(src.spec_bytes()),
        ensures
            final(self).moved(old(self)),
            ({
                let ts = old(self).token_seq();
                let i = old(self).index as int;
                match r {
                    Ok(n) => kind_at(ts, i) == TokenKind::BooleanLiteral && final(self).index == i + 1
                        && leaf(src.spec_bytes(), ts[i]) == Ok::<Tree, Failure>(Node::Boolean(n).tree())
                        && (n.raw@ == seq!['t', 'r', 'u', 'e'] || n.raw@ == seq!['f', 'a', 'l', 's', 'e']),
                    Err(e) => kind_at(ts, i) != TokenKind::BooleanLiteral && e@ == unexpected(
                        ts,
                        i,
                        TokenKind::BooleanLiteral,
                    ),
                }
            }),
    {
        let ghost ts = self.token_seq();
        let i = match self.consume(TokenKind::BooleanLiteral) {
            Ok(i) => i,
            Err(e) => return Err(e),
        };
        let t = &self.tokens[i];
        assert(t@ == ts[i as int]);
        assert(token_fits(src.spec_bytes(), ts[i as int]));
        let b = src.as_bytes();
        let a = t.span().start().cursor();
        let e = t.span().end().cursor();
        proof {
            lemma_keyword_texts();
        }
        let value = e - a == 4 && b[a] == 0x74 && b[a + 1] == 0x72 && b[a + 2] == 0x75 && b[a + 3]
            == 0x65;
        proof {
            let tb = token_bytes(src.spec_bytes(), ts[i as int]);
            if value {
                assert(tb =~= true_word());
            } else if e - a == 4 {
                assert(tb[0] != true_word()[0] || tb[1] != true_word()[1] || tb[2] != true_word()[2]
                    || tb[3] != true_word()[3]);
            }
        }
        Ok(BooleanNode { span: *t.span(), value, raw: t.raw().clone() })
    }

    fn parse_string_literal(&mut self, src: &str) -> (r: Result<StringNode, ParseError>)
        requires
            old(self).reads(src.spec_bytes()),
        ensures
            final(self).moved(old(self)),
            ({
                let ts = old(self).token_seq();
                let i = old(self).index as int;
                match r {
                    Ok(n) => kind_at(ts, i) == TokenKind::StringLiteral && final(self).index == i + 1
                        && leaf(src.spec_bytes(), ts[i]) == Ok::<Tree, Failure>(Node::String(n).tree())
                        && n.value@ == string_value(src.spec_bytes(), ts[i]),
                    Err(e) => kind_at(ts, i) != TokenKind::StringLiteral && e@ == unexpected(
                        ts,
                        i,
                        TokenKind::StringLiteral,
                    ),
                }
            }),
    {
        let ghost ts = self.token_seq();
        let i = match self.consume(TokenKind::StringLiteral) {
            Ok(i) => i,
            Err(e) => return Err(e),
        };
        let t = &self.tokens[i];
        assert(t@ == ts[i as int]);
        assert(token_fits(src.spec_bytes(), ts[i as int]));
        let a = t.span().start().cursor();
        let e = t.span().end().cursor();
        proof {
            lemma_edge_of_str(src, a + 1);
            lemma_edge_of_str(src, e - 1);
        }
        let value = text_between(src, a + 1, e - 1);
        Ok(StringNode { span: *t.span(), value, raw: t.raw().clone() })
    }

    fn parse_number_literal(&mut self, src: &str) -> (r: Result<NumberNode, ParseError>)
        requires
            old(self).reads(src.spec_bytes()),
        ensures
            final(self).moved(old(self)),
            ({
                let ts = old(self).token_seq();
                let i = old(self).index as int;
                match r {
                    Ok(n) => kind_at(ts, i) == TokenKind::NumberLiteral && final(self).index == i + 1
                        && leaf(src.spec_bytes(), ts[i]) == Ok::<Tree, Failure>(Node::Number(n).tree()),
                    Err(e) => (kind_at(ts, i) != TokenKind::NumberLiteral && e@ == unexpected(
                        ts,
                        i,
                        TokenKind::NumberLiteral,
                    )) || (kind_at(ts, i) == TokenKind::NumberLiteral && leaf(src.spec_bytes(), ts[i])
                        == Err::<Tree, Failure>(e@)),
                }
            }),
    {
        let ghost ts = self.token_seq();
        let i = match self.consume(TokenKind::NumberLiteral) {
            Ok(i) => i,
            Err(e) => return Err(e),
        };
        let t = &self.tokens[i];
        assert(t@ == ts[i as int]);
        let ghost sb = src.spec_bytes();
        assert(token_fits(sb, ts[i as int]));
        let ghost tb = token_bytes(sb, ts[i as int]);
        let b = src.as_bytes();
        let a = t.span().start().cursor();
        let e = t.span().end().cursor();
        let mut k = a;
        while k < e
            invariant
                b@ == sb,
                a <= k <= e <= b@.len(),
                tb == sb.subrange(a as int, e as int),
                forall|x: int| a <= x < k ==> b@[x] != 0x2e,
                self.moved(old(self)),
                self.index == i + 1,
                ts == old(self).token_seq(),
                i == old(self).index,
                kind_at(ts, i as int) == TokenKind::NumberLiteral,
                t@ == ts[i as int],
                tb == token_bytes(sb, ts[i as int]),
                sb == src.spec_bytes(),
            decreases e - k,
        {
            if b[k] == 0x2e {
                assert(tb[k - a] == 0x2e);
                assert(tb.contains(0x2e));
                return Ok(
                    NumberNode {
                        span: *t.span(),
                        value: NumberNodeValue::Float(t.raw().clone()),
                        raw: t.raw().clone(),
                    },
                );
            }
            k = k + 1;
        }
        assert(!tb.contains(0x2e)) by {
            assert forall|x: int| 0 <= x < tb.len() implies tb[x] != 0x2e by {
                assert(tb[x] == b@[a + x]);
            }
        }
        assert forall|x: int| 0 <= x < tb.len() implies is_digit(#[trigger] tb[x]) by {
            assert(tb[x] == sb[a + x]);
        }
        let mut v: i64 = 0;
        let mut k = a;
        while k < e
            invariant
                b@ == sb,
                a <= k <= e <= b@.len(),
                tb == sb.subrange(a as int, e as int),
                forall|x: int| 0 <= x < tb.len() ==> is_digit(#[trigger] tb[x]),
                v == digits_value(tb.take(k - a)),
                0 <= v,
                !tb.contains(0x2e),
                self.moved(old(self)),
                self.index == i + 1,
                ts == old(self).token_seq(),
                i == old(self).index,
                kind_at(ts, i as int) == TokenKind::NumberLiteral,
                t@ == ts[i as int],
                tb == token_bytes(sb, ts[i as int]),
                sb == src.spec_bytes(),
            decreases e - k,
        {
            assert(tb.take(k - a + 1).drop_last() =~= tb.take(k - a));
            assert(tb[k - a] == b@[k as int]);
            let d = (b[k] - 0x30) as i64;
            if v > 922337203685477580 || (v == 922337203685477580 && d > 7) {
                proof {
                    lemma_digits_grow(tb, k - a + 1);
                    assert(tb.take(k - a + 1).last() == tb[k - a]);
                    assert(digits_value(tb.take(k - a + 1)) == v * 10 + d);
                }
                return Err(ParseError::NumberOverflow { raw: t.raw().clone() });
            }
            v = v * 10 + d;
            k = k + 1;
        }
        assert(tb.take(e - a) =~= tb);
        Ok(NumberNode { span: *t.span(), value: NumberNodeValue::Int(v), raw: t.raw().clone() })
    }

    fn parse_value(&mut self, src: &str) -> (r: Result<Node, ParseError>)
        requires
            old(self).reads(src.spec_bytes()),
        ensures
            final(self).moved(old(self)),
            match r {
                Ok(n) => {
                    &&& value_at(src.spec_bytes(), old(self).token_seq(), old(self).index as int)
                        == Ok::<(Tree, int), Failure>((n.tree(), final(self).index as int))
                    &&& final(self).index > old(self).index
                },
                Err(e) => value_at(src.spec_bytes(), old(self).token_seq(), old(self).index as int)
                    == Err::<(Tree, int), Failure>(e@),
            },
        decreases old(self).tokens@.len() - old(self).index, 1int,
    {
        match self.current_kind() {
            TokenKind::NullLiteral => match self.parse_null_literal(src) {
                Ok(n) => Ok(Node::Null(n)),
                Err(e) => Err(e),
            },
            TokenKind::BooleanLiteral => match self.parse_boolean_literal(src) {
                Ok(n) => Ok(Node::Boolean(n)),
                Err(e) => Err(e),
            },
            TokenKind::NumberLiteral => match self.parse_number_literal(src) {
                Ok(n) => Ok(Node::Number(n)),
                Err(e) => Err(e),
            },
            TokenKind::StringLiteral => match self.parse_string_literal(src) {
                Ok(n) => Ok(Node::String(n)),
                Err(e) => Err(e),
            },
            TokenKind::OpenSquareBracket => match self.parse_array_literal(src) {
                Ok(n) => Ok(Node::Array(n)),
                Err(e) => Err(e),
            },
            TokenKind::OpenCurlyBrace => match self.parse_object_literal(src) {
                Ok(n) => Ok(Node::Object(n)),
                Err(e) => Err(e),
            },
            _ => Err(ParseError::InternalInconsistency),
        }
    }

    fn parse_array_literal(&mut self, src: &str) -> (r: Result<ArrayNode, ParseError>)
        requires
            old(self).reads(src.spec_bytes()),
        ensures
            final(self).moved(old(self)),
            match r {
                Ok(n) => {
                    &&& array_at(src.spec_bytes(), old(self).token_seq(), old(self).index as int)
                        == Ok::<(Tree, int), Failure>((Node::Array(n).tree(), final(self).index as int))
                    &&& final(self).index > old(self).index
                },
                Err(e) => array_at(src.spec_bytes(), old(self).token_seq(), old(self).index as int)
                    == Err::<(Tree, int), Failure>(e@),
            },
        decreases old(self).tokens@.len() - old(self).index, 0int,
    {
        let ghost s = src.spec_bytes();
        let ghost ts = self.token_seq();
        let open = match self.consume(TokenKind::OpenSquareBracket) {
            Ok(i) => i,
            Err(e) => return Err(e),
        };
        let start = self.tokens[open].span().start();
        let mut array: Vec<Node> = Vec::new();
        while self.current_kind() != TokenKind::ClosedSquareBracket && self.current_kind()
            != TokenKind::Eoi
            invariant
                self.moved(old(self)),
                self.reads(s),
                s == src.spec_bytes(),
                ts == old(self).token_seq(),
                open == old(self).index,
                open < self.index,
                start@ == ts[open as int].span.start,
                kind_at(ts, open as int) == TokenKind::OpenSquareBracket,
                items_from(s, ts, open + 1) == after_items(
                    tree_seq(array@),
                    items_from(s, ts, self.index as int),
                ),
            decreases self.tokens@.len() - self.index,
        {
            let ghost j = self.index as int;
            let value = match self.parse_value(src) {
                Ok(v) => v,
                Err(e) => {
                    assert(items_from(s, ts, j) == Err::<(Seq<Tree>, int), Failure>(e@));
                    assert(array_at(s, ts, open as int) == Err::<(Tree, int), Failure>(e@));
                    return Err(e);
                },
            };
            let ghost m = self.index as int;
            proof {
                lemma_after_items(tree_seq(array@), value.tree(), items_from(s, ts, m));
                lemma_after_items(tree_seq(array@), value.tree(), items_from(s, ts, m + 1));
                lemma_tree_seq_push(array@, value);
            }
            array.push(value);
            if self.current_kind() != TokenKind::ClosedSquareBracket {
                match self.consume(TokenKind::Comma) {
                    Ok(_) => {},
                    Err(e) => {
                        assert(items_from(s, ts, j) == Err::<(Seq<Tree>, int), Failure>(e@));
                        assert(array_at(s, ts, open as int) == Err::<(Tree, int), Failure>(e@));
                        return Err(e);
                    },
                }
            }
        }
        let close = match self.consume(TokenKind::ClosedSquareBracket) {
            Ok(i) => i,
            Err(e) => return Err(e),
        };
        let end = self.tokens[close].span().end();
        proof {
            assert(token_fits(s, ts[open as int]));
            assert(token_fits(s, ts[close as int]));
            assert(ts[open as int].span.end.cursor <= ts[close as int].span.start.cursor);
            assert(tree_seq(array@) + Seq::empty() == tree_seq(array@));
        }
        proof {
            lemma_edge_of_str(src, start@.cursor as int);
            lemma_edge_of_str(src, end@.cursor as int);
        }
        let raw = text_between(src, start.cursor(), end.cursor());
        Ok(ArrayNode { span: Span::new(start, end), value: array, raw })
    }

    #[verifier::rlimit(50)]
    fn parse_object_literal(&mut self, src: &str) -> (r: Result<ObjectNode, ParseError>)
        requires
            old(self).reads(src.spec_bytes()),
        ensures
            final(self).moved(old(self)),
            match r {
                Ok(n) => {
                    &&& object_at(src.spec_bytes(), old(self).token_seq(), old(self).index as int)
                        == Ok::<(Tree, int), Failure>((Node::Object(n).tree(), final(self).index as int))
                    &&& final(self).index > old(self).index
                },
                Err(e) => object_at(src.spec_bytes(), old(self).token_seq(), old(self).index as int)
                    == Err::<(Tree, int), Failure>(e@),
            },
        decreases old(self).tokens@.len() - old(self).index, 0int,
    {
        let ghost s = src.spec_bytes();
        let ghost ts = self.token_seq();
        let open = match self.consume(TokenKind::OpenCurlyBrace) {
            Ok(i) => i,
            Err(e) => return Err(e),
        };
        let start = self.tokens[open].span().start();
        let mut map: Vec<(String, Node)> = Vec::new();
        let ghost mut done: Seq<(Seq<char>, Tree)> = Seq::empty();
        proof {
            lemma_entry_seq(map@);
        }
        while self.current_kind() != TokenKind::ClosedCurlyBrace && self.current_kind()
            != TokenKind::Eoi
            invariant
                self.moved(old(self)),
                self.reads(s),
                s == src.spec_bytes(),
                ts == old(self).token_seq(),
                open == old(self).index,
                open < self.index,
                start@ == ts[open as int].span.start,
                kind_at(ts, open as int) == TokenKind::OpenCurlyBrace,
                members_from(s, ts, open + 1) == after_members(
                    done,
                    members_from(s, ts, self.index as int),
                ),
                entry_seq(map@) == members_of(done),
                forall|x: int, y: int|
                    0 <= x < map@.len() && 0 <= y < map@.len() && x != y ==> map@[x].0@ != map@[y].0@,
            decreases self.tokens@.len() - self.index,
        {
            let ghost j = self.index as int;
            let key = match self.parse_string_literal(src) {
                Ok(k) => k,
                Err(e) => {
                    assert(members_from(s, ts, j) == Err::<(Seq<(Seq<char>, Tree)>, int), Failure>(e@));
                    assert(object_at(s, ts, open as int) == Err::<(Tree, int), Failure>(e@));
                    return Err(e);
                },
            };
            match self.consume(TokenKind::Colon) {
                Ok(_) => {},
                Err(e) => {
                    assert(members_from(s, ts, j) == Err::<(Seq<(Seq<char>, Tree)>, int), Failure>(e@));
                    assert(object_at(s, ts, open as int) == Err::<(Tree, int), Failure>(e@));
                    return Err(e);
                },
            }
            let value = match self.parse_value(src) {
                Ok(v) => v,
                Err(e) => {
                    assert(members_from(s, ts, j) == Err::<(Seq<(Seq<char>, Tree)>, int), Failure>(e@));
                    assert(object_at(s, ts, open as int) == Err::<(Tree, int), Failure>(e@));
                    return Err(e);
                },
            };
            let ghost m = self.index as int;
            let ghost member = (key.value@, value.tree());
            proof {
                lemma_after_members(done, member, members_from(s, ts, m));
                lemma_after_members(done, member, members_from(s, ts, m + 1));
                assert(done.push(member).drop_last() =~= done);
                lemma_entry_seq(map@);
            }
            let ghost before = map@;
            match find_key(&map, &key.value) {
                Some(k) => {
                    proof {
                        let x = key_position(entry_seq(before), member.0);
                        assert(entry_seq(before)[k as int].0 == member.0);
                        assert(x == k);
                    }
                    map.set(k, (key.value, value));
                    proof {
                        lemma_entry_seq(map@);
                        assert(entry_seq(map@) =~= entry_seq(before).update(k as int, member));
                    }
                },
                None => {
                    map.push((key.value, value));
                    proof {
                        lemma_entry_seq(map@);
                        assert(entry_seq(map@) =~= entry_seq(before).push(member));
                    }
                },
            }
            proof {
                done = done.push(member);
            }
            if self.current_kind() != TokenKind::ClosedCurlyBrace {
                match self.consume(TokenKind::Comma) {
                    Ok(_) => {},
                    Err(e) => {
                        assert(members_from(s, ts, j) == Err::<(Seq<(Seq<char>, Tree)>, int), Failure>(e@));
                        assert(object_at(s, ts, open as int) == Err::<(Tree, int), Failure>(e@));
                        return Err(e);
                    },
                }
            }
        }
        let close = match self.consume(TokenKind::ClosedCurlyBrace) {
            Ok(i) => i,
            Err(e) => return Err(e),
        };
        let end = self.tokens[close].span().end();
        proof {
            assert(token_fits(s, ts[open as int]));
            assert(token_fits(s, ts[close as int]));
            assert(ts[open as int].span.end.cursor <= ts[close as int].span.start.cursor);
            assert(done + Seq::empty() == done);
        }
        proof {
            lemma_edge_of_str(src, start@.cursor as int);
            lemma_edge_of_str(src, end@.cursor as int);
        }
        let raw = text_between(src, start.cursor(), end.cursor());
        Ok(ObjectNode { span: Span::new(start, end), value: map, raw })
    }

    /// Reads `source` as a document, whose root is an array or an object.
    pub fn parse(&mut self, source: &String) -> (r: Result<Node, ParseError>)
        requires
            source_bytes(source).len() < usize::MAX,
        ensures
            final(self).allows_comments() == old(self).allows_comments(),
            match r {
                Ok(n) => {
                    &&& parse_source(source_bytes(source), old(self).allows_comments()) == Ok::<
                        Tree,
                        Failure,
                    >(n.tree())
                    &&& (n is Array || n is Object)
                },
                Err(e) => parse_source(source_bytes(source), old(self).allows_comments()) == Err::<
                    Tree,
                    Failure,
                >(e@),
            },
    {
        self.reset();
        let src = source.as_str();
        let tokens = match self.tokenizer.tokenize(source) {
            Ok(t) => t,
            Err(e) => return Err(e),
        };
        self.tokens = tokens;
        assert(src.spec_bytes() == source_bytes(source));
        match self.current_kind() {
            TokenKind::OpenSquareBracket => match self.parse_array_literal(src) {
                Ok(n) => Ok(Node::Array(n)),
                Err(e) => Err(e),
            },
            TokenKind::OpenCurlyBrace => match self.parse_object_literal(src) {
                Ok(n) => Ok(Node::Object(n)),
                Err(e) => Err(e),
            },
            _ => Err(ParseError::ExpectedArrayOrObjectRoot),
        }
    }
}

} // verus!
