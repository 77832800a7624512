use vstd::prelude::*;

verus! {

/// What span a selection covers, relative to the cursor.
#[derive(Clone, Copy, Debug, PartialEq, Eq, Structural)]
pub enum SelectionKind {
    Left,
    Down,
    Up,
    Right,
    ForwardWord,
    BackWord,
    Word,
    Line,
    LineRemain,
}

/// A span descriptor: a kind and how many times it repeats.
#[derive(Clone, Copy, Debug, PartialEq, Eq, Structural)]
pub struct Selection {
    pub kind: SelectionKind,
    pub count: usize,
}

impl SelectionKind {
    /// The selection of this kind taken once.
    pub fn once(self) -> (r: Selection)
        ensures
            r == (Selection { kind: self, count: 1 }),
    {
        Selection { kind: self, count: 1 }
    }
}

/// Cursor motions; none of them changes the text.
#[derive(Clone, Copy, Debug, PartialEq, Eq, Structural)]
pub enum MovementKind {
    CursorLeft,
    CursorDown,
    CursorUp,
    CursorRight,
    ScrollScreenUp,
    ScrollScreenDown,
    MoveToLineIndentHead,
    MoveToLineTail,
    MoveToHead,
    MoveToTail,
    ForwardWord,
    BackWord,
}

/// Changes to the text.
#[derive(Clone, Copy, Debug, PartialEq, Eq, Structural)]
pub enum EditKind {
    RemoveSelection(Selection),
    RemoveChar,
    AppendYank,
    InsertYank,
}

/// Everything a complete normal-mode command can ask for.
#[derive(Clone, Copy, Debug, PartialEq, Eq, Structural)]
pub enum ActionKind {
    Movement(MovementKind),
    Edit(EditKind),
    Change(Selection),
    Yank(Selection),
    EnterInsertMode,
    EnterAppendMode,
    EnterCmdLineMode,
    RepeatLast,
    CancelPending,
}

/// A decoded command: a repeat count and what to do.
#[derive(Clone, Copy, Debug, PartialEq, Eq, Structural)]
pub struct Action {
    pub count: usize,
    pub kind: ActionKind,
}

} // verus!
