//! The data vocabulary of the parser: token classifications, emitted items,
//! stack frames, path segments and materialized subtrees, together with
//! their mathematical views.

use vstd::prelude::*;

verus! {

/// The syntactic class of a scalar token.
#[derive(Debug, PartialEq, Eq, Copy, Clone, Structural)]
pub enum ValueType {
    Null,
    Bool,
    Int,
    Float,
    Str,
    Arr,
    Obj,
}

/// A classified scalar: its class and its raw text.
pub type Item = (ValueType, String);

/// What one step of the automaton emits: a key, a value, or a structural
/// marker (a consumed delimiter byte that carries no item).
#[derive(Debug, PartialEq, Eq)]
pub enum TextItem {
    Key(Item),
    Value(Item),
    Marker(u8),
}

/// The mathematical form of an emitted item.
#[derive(Debug, PartialEq, Eq, Copy, Clone, Structural)]
pub enum VItemKind {
    Key,
    Value,
    Marker,
}

/// Spec-level view of a [`TextItem`].
pub struct VItem {
    pub kind: VItemKind,
    pub vt: ValueType,
    pub text: Seq<char>,
    pub byte: u8,
}

impl View for TextItem {
    type V = VItem;

    open spec fn view(&self) -> VItem {
        match self {
            TextItem::Key((vt, s)) => VItem {
                kind: VItemKind::Key,
                vt: *vt,
                text: s@,
                byte: 0,
            },
            TextItem::Value((vt, s)) => VItem {
                kind: VItemKind::Value,
                vt: *vt,
                text: s@,
                byte: 0,
            },
            TextItem::Marker(b) => VItem {
                kind: VItemKind::Marker,
                vt: ValueType::Null,
                text: Seq::empty(),
                byte: *b,
            },
        }
    }
}

/// The per-frame automaton state: which transition table governs the frame
/// and where within it the cursor stands.
#[derive(Debug, PartialEq, Eq, Copy, Clone, Structural)]
pub enum FrameState {
    /// A pending value: the gap between a key (or the document root) and
    /// the value that follows it.
    ColonStart,
    /// A pending-value frame whose nested container has been entered.
    ColonAfterReturn,
    /// An object awaiting a key.
    BraceStart,
    /// An object that has read a key and awaits the colon.
    BraceAfterKey,
    /// An object awaiting a comma or the closing brace.
    BraceAfterColon,
    /// An array awaiting an element.
    SquareStart,
    /// An array awaiting a comma or the closing bracket.
    SquareAfterValue,
    /// An array whose nested container has been entered.
    SquareAfterReturn,
}

/// The symbol character a frame state reports: `:` for pending-value
/// frames, `{` for object frames, `[` for array frames.
pub open spec fn spec_symbol(st: FrameState) -> char {
    match st {
        FrameState::ColonStart => ':',
        FrameState::ColonAfterReturn => ':',
        FrameState::BraceStart => '{',
        FrameState::BraceAfterKey => '{',
        FrameState::BraceAfterColon => '{',
        FrameState::SquareStart => '[',
        FrameState::SquareAfterValue => '[',
        FrameState::SquareAfterReturn => '[',
    }
}

/// One frame of the position stack.
///
/// `level_halves` is the frame's level coordinate in half-steps (twice the
/// fractional level): object and array frames sit at even values, pending
/// value frames at odd values.
pub struct StackItem {
    pub state: FrameState,
    pub key: String,
    pub level_halves: i128,
    pub nth: usize,
}

/// Spec-level view of a stack frame.
pub struct VFrame {
    pub state: FrameState,
    pub key: Seq<char>,
    pub level_halves: int,
    pub nth: int,
}

impl View for StackItem {
    type V = VFrame;

    open spec fn view(&self) -> VFrame {
        VFrame {
            state: self.state,
            key: self.key@,
            level_halves: self.level_halves as int,
            nth: self.nth as int,
        }
    }
}

impl StackItem {
    /// The symbol character of this frame.
    pub fn symbol(&self) -> (c: char)
        ensures
            c == spec_symbol(self.state),
    {
        match self.state {
            FrameState::ColonStart => ':',
            FrameState::ColonAfterReturn => ':',
            FrameState::BraceStart => '{',
            FrameState::BraceAfterKey => '{',
            FrameState::BraceAfterColon => '{',
            FrameState::SquareStart => '[',
            FrameState::SquareAfterValue => '[',
            FrameState::SquareAfterReturn => '[',
        }
    }
}

/// One segment of the path from the document root to the cursor.
#[derive(Debug)]
pub enum PathItem {
    Start,
    Object(String, usize),
    Array(String, usize),
}

/// The mathematical form of a path segment.
pub enum VPath {
    Start,
    Object(Seq<char>, int),
    Array(Seq<char>, int),
}

/// The view of a path segment.
pub open spec fn path_item_view(p: PathItem) -> VPath {
    match p {
        PathItem::Start => VPath::Start,
        PathItem::Object(k, n) => VPath::Object(k@, n as int),
        PathItem::Array(k, n) => VPath::Array(k@, n as int),
    }
}

/// A materialized subtree: a scalar, an ordered sequence of values, or a
/// key-to-value mapping.  Object members are kept in document order;
/// members with repeated keys are all kept, each at its own position.
#[derive(Debug, PartialEq)]
pub enum Content {
    Simple(Item),
    Array(Vec<Content>),
    Object(Vec<(String, Content)>),
}

/// The mathematical form of a materialized subtree.
pub enum VContent {
    Simple(ValueType, Seq<char>),
    Array(Seq<VContent>),
    Object(Seq<(Seq<char>, VContent)>),
}

/// The view of a materialized subtree.
pub open spec fn content_view(c: Content) -> VContent
    decreases c,
{
    match c {
        Content::Simple((vt, s)) => VContent::Simple(vt, s@),
        Content::Array(items) => VContent::Array(array_view(items@)),
        Content::Object(members) => VContent::Object(object_view(members@)),
    }
}

/// The views of the elements of a materialized array, in order.
pub open spec fn array_view(items: Seq<Content>) -> Seq<VContent>
    decreases items,
{
    if items.len() == 0 {
        Seq::empty()
    } else {
        array_view(items.drop_last()).push(content_view(items.last()))
    }
}

/// The views of the members of a materialized object, in order.
pub open spec fn object_view(members: Seq<(String, Content)>) -> Seq<(Seq<char>, VContent)>
    decreases members,
{
    if members.len() == 0 {
        Seq::empty()
    } else {
        object_view(members.drop_last()).push(
            (members.last().0@, content_view(members.last().1)),
        )
    }
}

/// What a pattern predicate sees at a candidate token: the ancestor frame
/// under inspection and the token itself.
pub struct CurrentState {
    /// The latest key seen at the inspected frame.
    pub latest_key: String,
    /// The sibling ordinal of the inspected frame.
    pub nth_occurrence: usize,
    /// The level coordinate of the inspected frame, in half-steps.
    pub level_halves: i128,
    /// The token under consideration.
    pub current_item: Item,
    /// Whether that token is a key.
    pub is_key: bool,
}

} // verus!
