//! Source positions, spans and the nodes of the syntax tree.
use vstd::prelude::*;
use vstd::string::StringSliceAdditionalSpecFns;

verus! {

/// The byte that ends a line.
pub open spec fn is_line_feed(b: u8) -> bool {
    b == 0x0a
}

/// The number of line breaks in `b`. A line break is a line feed, optionally
/// followed by a carriage return; either way it holds exactly one line feed.
pub open spec fn line_breaks(b: Seq<u8>) -> nat
    decreases b.len(),
{
    if b.len() == 0 {
        0
    } else {
        line_breaks(b.drop_last()) + if is_line_feed(b.last()) { 1nat } else { 0nat }
    }
}

/// The length of the text that follows the last line break of `b` (all of
/// `b` when it holds none).
pub open spec fn last_line_len(b: Seq<u8>) -> nat
    decreases b.len(),
{
    if b.len() == 0 {
        0
    } else if is_line_feed(b.last()) {
        0
    } else if b.last() == 0x0d && b.len() >= 2 && is_line_feed(b[b.len() - 2]) {
        0
    } else {
        last_line_len(b.drop_last()) + 1
    }
}

/// Neither count of a text exceeds its length.
pub proof fn lemma_text_counts(b: Seq<u8>)
    ensures
        line_breaks(b) <= b.len(),
        last_line_len(b) <= b.len(),
    decreases b.len(),
{
    if b.len() > 0 {
        lemma_text_counts(b.drop_last());
    }
}

/// A location in a source text, as plain numbers.
pub struct PositionView {
    pub cursor: nat,
    pub line: nat,
    pub column: nat,
}

impl PositionView {
    /// The location after `n` more bytes on the same line.
    pub open spec fn add_columns(self, n: nat) -> PositionView {
        PositionView { cursor: self.cursor + n, line: self.line, column: self.column + n }
    }

    /// The location after the text `b`, which may hold line breaks.
    pub open spec fn add_text(self, b: Seq<u8>) -> PositionView {
        if line_breaks(b) == 0 {
            self.add_columns(b.len())
        } else {
            PositionView {
                cursor: self.cursor + b.len(),
                line: self.line + line_breaks(b),
                column: last_line_len(b),
            }
        }
    }
}

/// The first location of any source: cursor 0, line 1, column 0.
pub open spec fn start_view() -> PositionView {
    PositionView { cursor: 0, line: 1, column: 0 }
}

/// A position within a source text: a byte offset, a line counted from 1 and a
/// column counted in bytes from 0.
#[derive(Debug, PartialEq, Eq, Clone, Copy)]
pub struct Position {
    cursor: usize,
    line: usize,
    column: usize,
}

impl View for Position {
    type V = PositionView;

    closed spec fn view(&self) -> PositionView {
        PositionView { cursor: self.cursor as nat, line: self.line as nat, column: self.column as nat }
    }
}

impl Position {
    #[verifier::type_invariant]
    spec fn line_from_one(self) -> bool {
        self.line >= 1
    }

    pub fn new(cursor: usize, line: usize, column: usize) -> (r: Position)
        requires
            line >= 1,
        ensures
            r@ == (PositionView { cursor: cursor as nat, line: line as nat, column: column as nat }),
    {
        Position { cursor, line, column }
    }

    /// Initializes values to their starting position for some source.
    pub fn start() -> (r: Position)
        ensures
            r@ == start_view(),
    {
        Position { cursor: 0, line: 1, column: 0 }
    }

    pub fn cursor(&self) -> (r: usize)
        ensures
            r == self@.cursor,
    {
        self.cursor
    }

    pub fn line(&self) -> (r: usize)
        ensures
            r == self@.line,
            r >= 1,
    {
        proof {
            use_type_invariant(self);
        }
        self.line
    }

    pub fn column(&self) -> (r: usize)
        ensures
            r == self@.column,
    {
        self.column
    }

    fn add_cursor(&mut self, amount: usize)
        requires
            old(self)@.cursor + amount <= usize::MAX,
        ensures
            final(self)@ == (PositionView { cursor: old(self)@.cursor + amount as nat, ..old(self)@ }),
    {
        proof {
            use_type_invariant(&*self);
        }
        self.cursor = self.cursor + amount;
    }

    pub fn add_lines(&mut self, amount: usize)
        requires
            old(self)@.line + amount <= usize::MAX,
        ensures
            final(self)@ == (PositionView { line: old(self)@.line + amount as nat, ..old(self)@ }),
    {
        proof {
            use_type_invariant(&*self);
        }
        self.line = self.line + amount;
    }

    pub fn add_line_and_cursor(&mut self)
        requires
            old(self)@.line + 1 <= usize::MAX,
            old(self)@.cursor + 1 <= usize::MAX,
        ensures
            final(self)@ == (PositionView {
                cursor: old(self)@.cursor + 1,
                line: old(self)@.line + 1,
                column: 0,
            }),
    {
        self.add_lines_and_cursor(1);
    }

    /// Moves down `amount` lines, advancing the cursor by one byte per line,
    /// to the first column.
    pub fn add_lines_and_cursor(&mut self, amount: usize)
        requires
            old(self)@.line + amount <= usize::MAX,
            old(self)@.cursor + amount <= usize::MAX,
        ensures
            final(self)@ == (PositionView {
                cursor: old(self)@.cursor + amount as nat,
                line: old(self)@.line + amount as nat,
                column: 0,
            }),
    {
        self.add_lines(amount);
        self.add_cursor(amount);
        self.reset_column();
    }

    pub fn reset_column(&mut self)
        ensures
            final(self)@ == (PositionView { column: 0, ..old(self)@ }),
    {
        proof {
            use_type_invariant(&*self);
        }
        self.column = 0;
    }

    pub fn add_column(&mut self)
        requires
            old(self)@.cursor + 1 <= usize::MAX,
            old(self)@.column + 1 <= usize::MAX,
        ensures
            final(self)@ == old(self)@.add_columns(1),
    {
        self.add_columns(1);
    }

    pub fn add_columns(&mut self, amount: usize)
        requires
            old(self)@.cursor + amount <= usize::MAX,
            old(self)@.column + amount <= usize::MAX,
        ensures
            final(self)@ == old(self)@.add_columns(amount as nat),
    {
        proof {
            use_type_invariant(&*self);
        }
        self.column = self.column + amount;
        self.add_cursor(amount);
    }

    /// Advances over the text `s`: each line break moves to the next line,
    /// and the column becomes the length of the text after the last one.
    pub fn add_from_str(&mut self, s: &str)
        requires
            old(self)@.cursor + s.spec_bytes().len() <= usize::MAX,
            old(self)@.line + line_breaks(s.spec_bytes()) <= usize::MAX,
            line_breaks(s.spec_bytes()) == 0 ==> old(self)@.column + s.spec_bytes().len()
                <= usize::MAX,
        ensures
            final(self)@ == old(self)@.add_text(s.spec_bytes()),
    {
        proof {
            use_type_invariant(&*self);
        }
        let b = s.as_bytes();
        let n = b.len();
        let mut i: usize = 0;
        let mut lines: usize = 0;
        let mut tail: usize = 0;
        while i < n
            invariant
                n == b@.len(),
                i <= n,
                lines == line_breaks(b@.take(i as int)),
                lines <= i,
                lines == 0 ==> tail == i,
                tail == last_line_len(b@.take(i as int)),
                tail <= i,
            decreases n - i,
        {
            let ghost t = b@.take(i as int + 1);
            assert(t.drop_last() =~= b@.take(i as int));
            if i > 0 {
                assert(b@.take(i as int).drop_last() =~= b@.take(i - 1));
            }
            if b[i] == 0x0a {
                lines = lines + 1;
                tail = 0;
            } else if b[i] == 0x0d && i > 0 && b[i - 1] == 0x0a {
            } else {
                tail = tail + 1;
            }
            i = i + 1;
        }
        assert(b@.take(n as int) =~= b@);
        self.line = self.line + lines;
        self.cursor = self.cursor + n;
        if lines == 0 {
            self.column = self.column + tail;
        } else {
            self.column = tail;
        }
    }
}

/// A pair of positions in a source text: where something starts and where it ends.
pub struct SpanView {
    pub start: PositionView,
    pub end: PositionView,
}

/// The part of a source text from a start position up to an end position.
#[derive(Debug, PartialEq, Eq, Clone, Copy)]
pub struct Span {
    start: Position,
    end: Position,
}

impl View for Span {
    type V = SpanView;

    closed spec fn view(&self) -> SpanView {
        SpanView { start: self.start@, end: self.end@ }
    }
}

impl Span {
    pub fn new(start: Position, end: Position) -> (r: Span)
        ensures
            r@ == (SpanView { start: start@, end: end@ }),
    {
        Span { start, end }
    }

    /// A collapsed span where both positions are initialized
    /// to the start of some source.
    pub fn empty() -> (r: Span)
        ensures
            r@ == (SpanView { start: start_view(), end: start_view() }),
    {
        Span { start: Position::start(), end: Position::start() }
    }

    /// A Span collapsed at the given position.
    pub fn collapsed(position: Position) -> (r: Span)
        ensures
            r@ == (SpanView { start: position@, end: position@ }),
    {
        Span { start: position, end: position }
    }

    pub fn start(&self) -> (r: Position)
        ensures
            r@ == self@.start,
    {
        self.start
    }

    pub fn end(&self) -> (r: Position)
        ensures
            r@ == self@.end,
    {
        self.end
    }
}

/// The decoded value of a number literal.
#[derive(Debug, PartialEq, Eq, Clone)]
pub enum NumberNodeValue {
    /// A literal with a decimal point, as its text (digits, `.`, digits);
    /// `str::parse::<f64>` reads it as a float.
    Float(String),
    /// A literal without a decimal point.
    Int(i64),
}

#[derive(Debug, PartialEq, Eq)]
pub struct NullNode {
    pub span: Span,
    pub raw: String,
}

#[derive(Debug, PartialEq, Eq)]
pub struct BooleanNode {
    pub span: Span,
    pub value: bool,
    pub raw: String,
}

#[derive(Debug, PartialEq, Eq)]
pub struct NumberNode {
    pub span: Span,
    pub value: NumberNodeValue,
    pub raw: String,
}

#[derive(Debug, PartialEq, Eq)]
pub struct StringNode {
    pub span: Span,
    /// The text between the quotes, as it stands in the source.
    pub value: String,
    /// The text with its quotes.
    pub raw: String,
}

#[derive(Debug, PartialEq, Eq)]
pub struct ArrayNode {
    pub span: Span,
    /// The elements, in source order.
    pub value: Vec<Node>,
    pub raw: String,
}

#[derive(Debug, PartialEq, Eq)]
pub struct ObjectNode {
    pub span: Span,
    /// The members: each key once, in the order of its first appearance,
    /// with the value that came last for it.
    pub value: Vec<(String, Node)>,
    pub raw: String,
}

#[derive(Debug, PartialEq, Eq)]
pub enum Node {
    Null(NullNode),
    Boolean(BooleanNode),
    Number(NumberNode),
    String(StringNode),
    Array(ArrayNode),
    Object(ObjectNode),
}

/// The mathematical value of a number literal.
pub enum NumberValue {
    Float(Seq<char>),
    Int(int),
}

/// The mathematical value of a node: a tree with the span and the source
/// text of each node.
pub enum Tree {
    Null { span: SpanView, raw: Seq<char> },
    Boolean { span: SpanView, raw: Seq<char>, value: bool },
    Number { span: SpanView, raw: Seq<char>, value: NumberValue },
    Str { span: SpanView, raw: Seq<char>, value: Seq<char> },
    Array { span: SpanView, raw: Seq<char>, items: Seq<Tree> },
    Object { span: SpanView, raw: Seq<char>, entries: Seq<(Seq<char>, Tree)> },
}

impl NumberNodeValue {
    pub open spec fn view(&self) -> NumberValue {
        match self {
            NumberNodeValue::Float(s) => NumberValue::Float(s@),
            NumberNodeValue::Int(i) => NumberValue::Int(*i as int),
        }
    }
}

/// The trees of a sequence of nodes.
pub open spec fn tree_seq(s: Seq<Node>) -> Seq<Tree>
    decreases s,
{
    if s.len() == 0 {
        Seq::empty()
    } else {
        tree_seq(s.subrange(0, s.len() - 1)).push(s[s.len() - 1].tree())
    }
}

/// The keys and trees of a sequence of members.
pub open spec fn entry_seq(s: Seq<(String, Node)>) -> Seq<(Seq<char>, Tree)>
    decreases s,
{
    if s.len() == 0 {
        Seq::empty()
    } else {
        entry_seq(s.subrange(0, s.len() - 1)).push((s[s.len() - 1].0@, s[s.len() - 1].1.tree()))
    }
}

impl Node {
    /// The tree of this node and everything under it.
    pub open spec fn tree(&self) -> Tree
        decreases self,
    {
        match self {
            Node::Null(n) => Tree::Null { span: n.span@, raw: n.raw@ },
            Node::Boolean(n) => Tree::Boolean { span: n.span@, raw: n.raw@, value: n.value },
            Node::Number(n) => Tree::Number { span: n.span@, raw: n.raw@, value: n.value.view() },
            Node::String(n) => Tree::Str { span: n.span@, raw: n.raw@, value: n.value@ },
            Node::Array(n) => Tree::Array { span: n.span@, raw: n.raw@, items: tree_seq(n.value@) },
            Node::Object(n) => Tree::Object { span: n.span@, raw: n.raw@, entries: entry_seq(n.value@) },
        }
    }

    pub fn is_null(&self) -> (r: bool)
        ensures
            r == self is Null,
    {
        match self {
            Node::Null(_) => true,
            _ => false,
        }
    }

    pub fn is_boolean(&self) -> (r: bool)
        ensures
            r == self is Boolean,
    {
        match self {
            Node::Boolean(_) => true,
            _ => false,
        }
    }

    pub fn is_number(&self) -> (r: bool)
        ensures
            r == self is Number,
    {
        match self {
            Node::Number(_) => true,
            _ => false,
        }
    }

    pub fn is_string(&self) -> (r: bool)
        ensures
            r == self is String,
    {
        match self {
            Node::String(_) => true,
            _ => false,
        }
    }

    pub fn is_array(&self) -> (r: bool)
        ensures
            r == self is Array,
    {
        match self {
            Node::Array(_) => true,
            _ => false,
        }
    }

    pub fn is_object(&self) -> (r: bool)
        ensures
            r == self is Object,
    {
        match self {
            Node::Object(_) => true,
            _ => false,
        }
    }
}

} // verus!
