use vstd::prelude::*;

use crate::action::{Action, ActionKind, EditKind, MovementKind, Selection, SelectionKind};
use crate::buffer::{
    copy_chars, append_chars, append_rows, line_start, view_lines, Buffer, insert_at, insert_rows, remove_at, remove_rows, min_end,
    word_forward_n, word_back_n, skip_blank, repeat, forward_words, back_words,
    lemma_forward_n_bounds, lemma_back_n_bounds, join, split_text, at_offset, lemma_join_split,
    lemma_split_nonempty, lemma_offset_in_text,
};
use crate::cmdline::{is_quit, parse_command, write_path, Command};
use crate::grammar::{
    is_cancel_token, lemma_cancel_completes, lemma_dd_is_line_selection, lemma_empty_is_incomplete, parse,
    parse_spec,
};

verus! {

/// The cursor, zero-based.
#[derive(Clone, Copy, Debug, PartialEq, Eq, Structural)]
pub struct Cursor {
    pub row: usize,
    pub col: usize,
}

/// How key input is read: normal-mode commands and command-line text carry
/// the input that is not yet resolved.
#[derive(Debug)]
pub enum Mode {
    Normal(Vec<char>),
    Insert,
    CmdLine(Vec<char>),
}

/// What a mode is, to a contract.
pub enum ModeView {
    Normal(Seq<char>),
    Insert,
    CmdLine(Seq<char>),
}

impl View for Mode {
    type V = ModeView;

    open spec fn view(&self) -> ModeView {
        match self {
            Mode::Normal(p) => ModeView::Normal(p@),
            Mode::Insert => ModeView::Insert,
            Mode::CmdLine(p) => ModeView::CmdLine(p@),
        }
    }
}

impl Mode {
    /// The pending normal-mode input.
    pub fn get_cmd(&self) -> (r: &Vec<char>)
        requires
            self is Normal,
        ensures
            self@ == ModeView::Normal(r@),
    {
        match self {
            Mode::Normal(p) => p,
            _ => vstd::pervasive::unreached(),
        }
    }

    /// The command-line text typed so far.
    pub fn get_cmdline(&self) -> (r: &Vec<char>)
        requires
            self is CmdLine,
        ensures
            self@ == ModeView::CmdLine(r@),
    {
        match self {
            Mode::CmdLine(p) => p,
            _ => vstd::pervasive::unreached(),
        }
    }
}

/// The yank register: inline characters, or whole lines (which end in a
/// line break when written out).
#[derive(Debug)]
pub enum Yanked {
    Chars(Vec<char>),
    Lines(Vec<Vec<char>>),
}

/// What the yank register holds, to a contract.
pub enum RegisterView {
    Chars(Seq<char>),
    Lines(Seq<Seq<char>>),
}

impl View for Yanked {
    type V = RegisterView;

    open spec fn view(&self) -> RegisterView {
        match self {
            Yanked::Chars(c) => RegisterView::Chars(c@),
            Yanked::Lines(ls) => RegisterView::Lines(view_lines(ls@)),
        }
    }
}

/// Each line followed by a line break.
pub open spec fn lines_text(ls: Seq<Seq<char>>) -> Seq<char>
    decreases ls.len(),
{
    if ls.len() == 0 {
        Seq::empty()
    } else {
        lines_text(ls.drop_last()) + ls.last() + seq!['\n']
    }
}

/// The register's content as text.
pub open spec fn register_text(y: RegisterView) -> Seq<char> {
    match y {
        RegisterView::Chars(c) => c,
        RegisterView::Lines(ls) => lines_text(ls),
    }
}

impl Yanked {
    /// The register's content as text: whole lines end in a line break.
    pub fn text(&self) -> (r: Vec<char>)
        ensures
            r@ == register_text(self@),
    {
        match self {
            Yanked::Chars(c) => copy_chars(c, 0, c.len()),
            Yanked::Lines(ls) => {
                let mut r: Vec<char> = Vec::new();
                let mut k: usize = 0;
                while k < ls.len()
                    invariant
                        k <= ls@.len(),
                        r@ == lines_text(view_lines(ls@).subrange(0, k as int)),
                    decreases ls@.len() - k,
                {
                    append_chars(&mut r, &ls[k], 0, ls[k].len());
                    r.push('\n');
                    proof {
                        let s = view_lines(ls@).subrange(0, k + 1);
                        assert(s.drop_last() =~= view_lines(ls@).subrange(0, k as int));
                        assert(ls@[k as int]@.subrange(0, ls@[k as int]@.len() as int) =~= s.last());
                        assert(r@ =~= lines_text(s));
                    }
                    k = k + 1;
                }
                assert(view_lines(ls@).subrange(0, ls@.len() as int) =~= view_lines(ls@));
                r
            },
        }
    }

    /// Whether the content, written out, ends in a line break.
    pub fn ends_with_line_break(&self) -> (r: bool)
        ensures
            r == (self@ is Lines && view_lines(self->Lines_0@).len() > 0),
    {
        match self {
            Yanked::Chars(_) => false,
            Yanked::Lines(ls) => ls.len() > 0,
        }
    }
}

/// A selection resolved against the cursor: offsets `start..end` of the
/// whole text (lines joined by line breaks), or rows `start..end`.
#[derive(Clone, Copy, Debug, PartialEq, Eq, Structural)]
pub enum Span {
    Text(usize, usize),
    Lines(usize, usize),
}

/// `a * b`, or the largest `usize` where the product does not fit.
pub open spec fn times(a: usize, b: usize) -> usize {
    if a * b > usize::MAX {
        usize::MAX
    } else {
        (a * b) as usize
    }
}

/// The smaller of two integers.
pub open spec fn min(a: int, b: int) -> int {
    if a < b {
        a
    } else {
        b
    }
}

/// The cursor's offset in the whole text.
pub open spec fn cursor_offset(ls: Seq<Seq<char>>, cur: Cursor) -> int {
    line_start(ls, cur.row as int) + cur.col
}

/// The span that `n` selections of `kind` cover from column `col` of row
/// `row`. Character spans are offsets of the whole text: word spans are
/// measured there from the cursor's offset and may cross line breaks.
pub open spec fn span_of(ls: Seq<Seq<char>>, row: int, col: int, kind: SelectionKind, n: nat) -> Span {
    let len = ls[row].len() as int;
    let t = join(ls);
    let start = line_start(ls, row);
    let o = start + col;
    match kind {
        SelectionKind::Left => Span::Text((o - min(n as int, col)) as usize, o as usize),
        SelectionKind::Right => Span::Text(o as usize, (start + min_end(col, n as int, len)) as usize),
        SelectionKind::ForwardWord => Span::Text(o as usize, word_forward_n(t, o, n) as usize),
        SelectionKind::BackWord => Span::Text(word_back_n(t, o, n) as usize, o as usize),
        SelectionKind::Word => Span::Text(word_back_n(t, o, n) as usize, word_forward_n(t, o, n) as usize),
        SelectionKind::LineRemain => Span::Text(o as usize, (start + len) as usize),
        SelectionKind::Line => Span::Lines(row as usize, min_end(row, n as int, ls.len() as int) as usize),
        SelectionKind::Down => Span::Lines(row as usize, min_end(row, n + 1int, ls.len() as int) as usize),
        SelectionKind::Up => Span::Lines((row - min(n as int, row)) as usize, (row + 1) as usize),
    }
}

/// The span lies in the text.
pub open spec fn span_ok(ls: Seq<Seq<char>>, sp: Span) -> bool {
    match sp {
        Span::Text(a, b) => a <= b <= join(ls).len(),
        Span::Lines(a, b) => a <= b <= ls.len() && a < ls.len(),
    }
}

/// What the span holds, as the register would hold it.
pub open spec fn span_content(ls: Seq<Seq<char>>, sp: Span) -> RegisterView {
    match sp {
        Span::Text(a, b) => RegisterView::Chars(join(ls).subrange(a as int, b as int)),
        Span::Lines(a, b) => RegisterView::Lines(ls.subrange(a as int, b as int)),
    }
}

/// The text with `a..b` taken out.
pub open spec fn cut_text(t: Seq<char>, a: int, b: int) -> Seq<char> {
    t.subrange(0, a) + t.subrange(b, t.len() as int)
}

/// The lines with the span taken out.
pub open spec fn span_removed(ls: Seq<Seq<char>>, sp: Span) -> Seq<Seq<char>> {
    match sp {
        Span::Text(a, b) => split_text(cut_text(join(ls), a as int, b as int)),
        Span::Lines(a, b) => remove_rows(ls, a as int, b as int),
    }
}

/// The row a position falls on once brought into the text.
pub open spec fn clamp_row(ls: Seq<Seq<char>>, r: int) -> int {
    if r >= ls.len() {
        ls.len() - 1
    } else {
        r
    }
}

/// The cursor stands where position `(r, c)` is brought into the text: the
/// last row at most, then the row's end at most.
pub open spec fn placed(ls: Seq<Seq<char>>, r: int, c: int, cur: Cursor) -> bool {
    cur.row == clamp_row(ls, r) && cur.col == min(c, ls[clamp_row(ls, r)].len() as int)
}

/// The cursor lies in the text.
pub open spec fn cursor_ok(ls: Seq<Seq<char>>, cur: Cursor) -> bool {
    ls.len() >= 1 && cur.row < ls.len() && cur.col <= ls[cur.row as int].len()
}

/// Where a movement taken `n` times would put the cursor, before it is
/// brought into the text; a screen is `h` rows. Word movements are measured
/// in the whole text instead (`word_target`), and stay put here.
pub open spec fn moved(ls: Seq<Seq<char>>, cur: Cursor, m: MovementKind, n: nat, h: nat) -> (int, int) {
    let r = cur.row as int;
    let c = cur.col as int;
    let l = ls[r];
    match m {
        MovementKind::CursorLeft => (r, c - min(n as int, c)),
        MovementKind::CursorRight => (r, c + n),
        MovementKind::CursorDown => (r + n, c),
        MovementKind::CursorUp => (r - min(n as int, r), c),
        MovementKind::ScrollScreenDown => (r + n * h, c),
        MovementKind::ScrollScreenUp => (r - min((n * h) as int, r), c),
        MovementKind::MoveToLineIndentHead => (r, skip_blank(l, 0)),
        MovementKind::MoveToLineTail => (r, l.len() as int),
        MovementKind::MoveToHead => (0, c),
        MovementKind::MoveToTail => (ls.len() - 1, c),
        MovementKind::ForwardWord => (r, c),
        MovementKind::BackWord => (r, c),
    }
}

/// Where a word movement taken `n` times puts the cursor, as an offset of
/// the whole text; `None` for the other movements.
pub open spec fn word_target(ls: Seq<Seq<char>>, cur: Cursor, m: MovementKind, n: nat) -> Option<int> {
    let t = join(ls);
    let o = cursor_offset(ls, cur);
    match m {
        MovementKind::ForwardWord => Some(word_forward_n(t, o, n)),
        MovementKind::BackWord => Some(word_back_n(t, o, n)),
        _ => None,
    }
}

/// The lines after pasting whole lines `v` `n` times, and the row the cursor
/// goes to: below the cursor's row (`after`) or above it.
pub open spec fn pasted_lines(ls: Seq<Seq<char>>, cur: Cursor, v: Seq<Seq<char>>, n: nat, after: bool) -> (Seq<Seq<char>>, int) {
    let at = if after { cur.row + 1 } else { cur.row as int };
    (insert_rows(ls, at, repeat(v, n)), at)
}

/// The offset at which characters are pasted: just after the cursor
/// (`after`, unless at the row's end) or at it.
pub open spec fn paste_offset(ls: Seq<Seq<char>>, cur: Cursor, after: bool) -> int {
    let o = cursor_offset(ls, cur);
    if after && cur.col < ls[cur.row as int].len() {
        o + 1
    } else {
        o
    }
}

/// The text with `v` put in at offset `p`.
pub open spec fn put_text(t: Seq<char>, p: int, v: Seq<char>) -> Seq<char> {
    t.subrange(0, p) + v + t.subrange(p, t.len() as int)
}

/// One editing session: the text, the cursor, the mode with its pending
/// input, the yank register, the rows a screen holds, and the last action,
/// which `.` repeats.
#[derive(Debug)]
pub struct State {
    pub cursor: Cursor,
    pub mode: Mode,
    pub yanked: Yanked,
    pub buffer: Buffer,
    pub height: usize,
    pub last: Option<Action>,
}

/// `.` repeats the last action that was neither `.` nor a cancel.
pub open spec fn repeatable(a: Action) -> bool {
    !(a.kind is RepeatLast) && !(a.kind is CancelPending)
}

/// `s` repeated `n` times.
fn repeat_chars(v: &Vec<char>, n: usize) -> (r: Vec<char>)
    ensures
        r@ == repeat(v@, n as nat),
{
    let mut r: Vec<char> = Vec::new();
    let mut k: usize = 0;
    while k < n
        invariant
            k <= n,
            r@ == repeat(v@, k as nat),
        decreases n - k,
    {
        append_chars(&mut r, v, 0, v.len());
        assert(v@.subrange(0, v@.len() as int) =~= v@);
        k = k + 1;
    }
    r
}

/// The rows of `v` repeated `n` times.
fn repeat_rows(v: &Vec<Vec<char>>, n: usize) -> (r: Vec<Vec<char>>)
    ensures
        view_lines(r@) == repeat(view_lines(v@), n as nat),
{
    let mut r: Vec<Vec<char>> = Vec::new();
    let mut k: usize = 0;
    assert(view_lines(r@) =~= repeat(view_lines(v@), 0));
    while k < n
        invariant
            k <= n,
            view_lines(r@) == repeat(view_lines(v@), k as nat),
        decreases n - k,
    {
        append_rows(&mut r, v, 0, v.len());
        assert(view_lines(v@).subrange(0, v@.len() as int) =~= view_lines(v@));
        k = k + 1;
    }
    r
}

impl State {
    /// The text is not empty, the cursor lies in it, `.` has something it
    /// can repeat, and pending normal-mode input holds no complete command.
    pub open spec fn wf(&self) -> bool {
        &&& self.buffer.wf()
        &&& cursor_ok(self.buffer@, self.cursor)
        &&& (self.last matches Some(a) ==> repeatable(a))
        &&& (self.mode@ matches ModeView::Normal(p) ==> parse_spec(p) is None)
    }

    /// A session on `buffer` in normal mode with nothing pending, the cursor
    /// at the start and the register empty.
    pub fn new(buffer: Buffer, height: usize) -> (r: State)
        requires
            buffer.wf(),
        ensures
            r.wf(),
            r.buffer@ == buffer@,
            r.cursor == (Cursor { row: 0, col: 0 }),
            r.mode@ == ModeView::Normal(Seq::empty()),
            r.yanked@ == RegisterView::Chars(Seq::empty()),
            r.height == height,
            r.last is None,
    {
        State {
            cursor: Cursor { row: 0, col: 0 },
            mode: Mode::Normal(Vec::new()),
            yanked: Yanked::Chars(Vec::new()),
            buffer,
            height,
            last: None,
        }
    }

    /// The cursor's offset in the whole text (the largest `usize` where it
    /// does not fit).
    pub fn get_cursor_offset(&self) -> (r: usize)
        requires
            self.wf(),
        ensures
            r == if line_start(self.buffer@, self.cursor.row as int) + self.cursor.col <= usize::MAX {
                (line_start(self.buffer@, self.cursor.row as int) + self.cursor.col) as usize
            } else {
                usize::MAX
            },
    {
        self.buffer.get_offset_by_cursor(self.cursor.col, self.cursor.row)
    }

    /// The whole text and the cursor's offset in it.
    pub fn text_and_offset(&self) -> (r: (Vec<char>, usize))
        requires
            self.wf(),
        ensures
            r.0@ == join(self.buffer@),
            r.1 == cursor_offset(self.buffer@, self.cursor),
            r.1 <= r.0@.len(),
            join(self.buffer@).len() <= usize::MAX,
    {
        let t = self.buffer.text();
        let _ = t.len();
        proof {
            lemma_offset_in_text(self.buffer@, self.cursor.row as int, self.cursor.col as int);
        }
        let o = self.buffer.offset_of(self.cursor.col, self.cursor.row);
        (t, o)
    }

    /// How many characters one back-word step from the cursor passes, in the
    /// whole text: more than none unless the cursor is at the text's start.
    pub fn count_word_back(&self) -> (r: usize)
        requires
            self.wf(),
        ensures
            r == cursor_offset(self.buffer@, self.cursor) - word_back_n(
                join(self.buffer@),
                cursor_offset(self.buffer@, self.cursor),
                1,
            ),
            r <= cursor_offset(self.buffer@, self.cursor),
            cursor_offset(self.buffer@, self.cursor) > 0 ==> r > 0,
    {
        let (t, o) = self.text_and_offset();
        o - back_words(&t, o, 1)
    }

    /// How many characters one forward-word step from the cursor passes, in
    /// the whole text: more than none unless the cursor is at the text's end.
    pub fn count_word_forward(&self) -> (r: usize)
        requires
            self.wf(),
        ensures
            r == word_forward_n(join(self.buffer@), cursor_offset(self.buffer@, self.cursor), 1) - cursor_offset(
                self.buffer@,
                self.cursor,
            ),
            cursor_offset(self.buffer@, self.cursor) + r <= join(self.buffer@).len(),
            cursor_offset(self.buffer@, self.cursor) < join(self.buffer@).len() ==> r > 0,
    {
        let (t, o) = self.text_and_offset();
        forward_words(&t, o, 1) - o
    }

    /// Resolves `n` selections of `kind` against the cursor.
    pub fn measure_selection(&self, kind: SelectionKind, n: usize) -> (r: Span)
        requires
            self.wf(),
        ensures
            r == span_of(self.buffer@, self.cursor.row as int, self.cursor.col as int, kind, n as nat),
            span_ok(self.buffer@, r),
    {
        let row = self.cursor.row;
        let col = self.cursor.col;
        let len = self.buffer.row_len(row);
        let count = self.buffer.line_count();
        let (t, o) = self.text_and_offset();
        proof {
            lemma_offset_in_text(self.buffer@, row as int, len as int);
        }
        let start = o - col;
        match kind {
            SelectionKind::Left => Span::Text(if n > col { start } else { o - n }, o),
            SelectionKind::Right => Span::Text(o, if n > len - col { start + len } else { o + n }),
            SelectionKind::ForwardWord => Span::Text(o, forward_words(&t, o, n)),
            SelectionKind::BackWord => Span::Text(back_words(&t, o, n), o),
            SelectionKind::Word => {
                let a = back_words(&t, o, n);
                let b = forward_words(&t, o, n);
                Span::Text(a, b)
            },
            SelectionKind::LineRemain => Span::Text(o, start + len),
            SelectionKind::Line => Span::Lines(row, if n > count - row { count } else { row + n }),
            SelectionKind::Down => Span::Lines(row, if n >= count - row { count } else { row + n + 1 }),
            SelectionKind::Up => Span::Lines(if n > row { 0 } else { row - n }, row + 1),
        }
    }

    /// Brings position `(row, col)` into the text and puts the cursor there.
    fn place(&mut self, row: usize, col: usize)
        requires
            old(self).buffer.wf(),
        ensures
            placed(old(self).buffer@, row as int, col as int, final(self).cursor),
            cursor_ok(final(self).buffer@, final(self).cursor),
            final(self).buffer@ == old(self).buffer@,
            final(self).mode == old(self).mode,
            final(self).yanked == old(self).yanked,
            final(self).height == old(self).height,
            final(self).last == old(self).last,
    {
        let count = self.buffer.line_count();
        let r = if row >= count { count - 1 } else { row };
        let len = self.buffer.row_len(r);
        let c = if col > len { len } else { col };
        self.cursor = Cursor { row: r, col: c };
    }
}

/// The cursor stands at offset `off` of the whole text.
pub open spec fn cursor_at(ls: Seq<Seq<char>>, off: int, cur: Cursor) -> bool {
    at_offset(ls, off, cur.row as int, cur.col as int)
}

/// `t` is `s` with the span (resolved against `s`'s cursor) taken out and
/// put in the register.
pub open spec fn removed_by(s: &State, t: &State, sp: Span) -> bool {
    let ls = s.buffer@;
    let c = s.cursor.col as int;
    &&& t.buffer@ == span_removed(ls, sp)
    &&& t.yanked@ == span_content(ls, sp)
    &&& match sp {
        Span::Text(a, _) => cursor_at(t.buffer@, a as int, t.cursor),
        Span::Lines(a, _) => placed(t.buffer@, a as int, c, t.cursor),
    }
}

/// `t` is `s` with the register pasted `n` times: whole lines as rows,
/// characters into the whole text.
pub open spec fn pasted_by(s: &State, t: &State, n: nat, after: bool) -> bool {
    let ls = s.buffer@;
    &&& t.yanked@ == s.yanked@
    &&& match s.yanked@ {
        RegisterView::Lines(v) => {
            let p = pasted_lines(ls, s.cursor, v, n, after);
            t.buffer@ == p.0 && placed(t.buffer@, p.1, 0, t.cursor)
        },
        RegisterView::Chars(v) => {
            let p = paste_offset(ls, s.cursor, after);
            t.buffer@ == split_text(put_text(join(ls), p, repeat(v, n))) && cursor_at(t.buffer@, p, t.cursor)
        },
    }
}

/// Text, register and cursor stay as they are.
pub open spec fn kept(s: &State, t: &State) -> bool {
    t.buffer@ == s.buffer@ && t.yanked@ == s.yanked@ && t.cursor == s.cursor
}

/// The span that `x` taken `n` times removes: up to `n` characters from the
/// cursor, not past its row's end.
pub open spec fn remove_char_span(ls: Seq<Seq<char>>, cur: Cursor, n: usize) -> Span {
    let start = line_start(ls, cur.row as int);
    let c = cur.col as int;
    Span::Text((start + c) as usize, (start + min_end(c, n as int, ls[cur.row as int].len() as int)) as usize)
}

/// `t` is what carrying out `a` (other than `.`) on `s` gives.
pub open spec fn applied(s: &State, t: &State, a: Action) -> bool {
    let ls = s.buffer@;
    let r = s.cursor.row as int;
    let c = s.cursor.col as int;
    let n = a.count as nat;
    let normal = t.mode@ == ModeView::Normal(Seq::empty());
    &&& t.height == s.height
    &&& match a.kind {
        ActionKind::Movement(m) => {
            let p = moved(ls, s.cursor, m, n, s.height as nat);
            &&& t.buffer@ == ls
            &&& t.yanked@ == s.yanked@
            &&& match word_target(ls, s.cursor, m, n) {
                Some(off) => cursor_at(ls, off, t.cursor),
                None => placed(ls, p.0, p.1, t.cursor),
            }
            &&& normal
        },
        ActionKind::Edit(EditKind::RemoveChar) => removed_by(s, t, remove_char_span(ls, s.cursor, a.count)) && normal,
        ActionKind::Edit(EditKind::RemoveSelection(sel)) => removed_by(
            s,
            t,
            span_of(ls, r, c, sel.kind, times(a.count, sel.count) as nat),
        ) && normal,
        ActionKind::Change(sel) => removed_by(
            s,
            t,
            span_of(ls, r, c, sel.kind, times(a.count, sel.count) as nat),
        ) && t.mode@ == ModeView::Insert,
        ActionKind::Yank(sel) => {
            &&& t.buffer@ == ls
            &&& t.yanked@ == span_content(ls, span_of(ls, r, c, sel.kind, times(a.count, sel.count) as nat))
            &&& t.cursor == s.cursor
            &&& normal
        },
        ActionKind::Edit(EditKind::AppendYank) => pasted_by(s, t, n, true) && normal,
        ActionKind::Edit(EditKind::InsertYank) => pasted_by(s, t, n, false) && normal,
        ActionKind::EnterInsertMode => kept(s, t) && t.mode@ == ModeView::Insert,
        ActionKind::EnterAppendMode => {
            &&& t.buffer@ == ls
            &&& t.yanked@ == s.yanked@
            &&& placed(ls, r, c + 1, t.cursor)
            &&& t.mode@ == ModeView::Insert
        },
        ActionKind::EnterCmdLineMode => kept(s, t) && t.mode@ == ModeView::CmdLine(Seq::empty()),
        ActionKind::RepeatLast => kept(s, t) && normal,
        ActionKind::CancelPending => kept(s, t) && normal,
    }
}

impl State {
    /// Replaces the text with `t` and puts the cursor at offset `off` of it.
    fn set_text(&mut self, t: &Vec<char>, off: usize)
        requires
            old(self).wf(),
            off <= t@.len(),
        ensures
            final(self).wf(),
            final(self).buffer@ == split_text(t@),
            cursor_at(final(self).buffer@, off as int, final(self).cursor),
            final(self).mode == old(self).mode,
            final(self).yanked == old(self).yanked,
            final(self).height == old(self).height,
            final(self).last == old(self).last,
    {
        proof {
            lemma_join_split(t@);
            lemma_split_nonempty(t@);
        }
        self.buffer = Buffer::from_text(t);
        let (r, c) = self.buffer.position_of(off);
        self.cursor = Cursor { row: r, col: c };
    }

    /// The register content that a span holds.
    fn copy_span(&self, sp: Span) -> (r: Yanked)
        requires
            self.wf(),
            span_ok(self.buffer@, sp),
        ensures
            r@ == span_content(self.buffer@, sp),
    {
        match sp {
            Span::Text(a, b) => {
                let t = self.buffer.text();
                Yanked::Chars(copy_chars(&t, a, b))
            },
            Span::Lines(a, b) => Yanked::Lines(self.buffer.subseq_lines(a, b - a)),
        }
    }

    /// Takes the span out of the text into the register.
    fn remove_span(&mut self, sp: Span)
        requires
            old(self).wf(),
            span_ok(old(self).buffer@, sp),
        ensures
            final(self).wf(),
            removed_by(old(self), final(self), sp),
            final(self).mode == old(self).mode,
            final(self).height == old(self).height,
            final(self).last == old(self).last,
    {
        let col = self.cursor.col;
        match sp {
            Span::Text(a, b) => {
                let t = self.buffer.text();
                let removed = copy_chars(&t, a, b);
                let mut rest = copy_chars(&t, 0, a);
                append_chars(&mut rest, &t, b, t.len());
                self.yanked = Yanked::Chars(removed);
                self.set_text(&rest, a);
            },
            Span::Lines(a, b) => {
                let removed = self.buffer.remove_lines(a, b - a);
                self.yanked = Yanked::Lines(removed);
                self.place(a, col);
            },
        }
    }

    /// Pastes the register `n` times: whole lines below the cursor's row
    /// (`after`) or above it; characters just after the cursor or at it.
    fn paste(&mut self, n: usize, after: bool)
        requires
            old(self).wf(),
        ensures
            final(self).wf(),
            pasted_by(old(self), final(self), n as nat, after),
            final(self).mode == old(self).mode,
            final(self).height == old(self).height,
            final(self).last == old(self).last,
    {
        let row = self.cursor.row;
        let count = self.buffer.line_count();
        match &self.yanked {
            Yanked::Lines(v) => {
                let content = repeat_rows(v, n);
                let at = if after {
                    proof {
                        assert(row + 1 <= count);
                    }
                    row + 1
                } else {
                    row
                };
                self.buffer.insert_lines(at, &content);
                self.place(at, 0);
            },
            Yanked::Chars(v) => {
                let content = repeat_chars(v, n);
                let len = self.buffer.row_len(row);
                let (t, o) = self.text_and_offset();
                proof {
                    lemma_offset_in_text(self.buffer@, row as int, len as int);
                }
                let p = if after && self.cursor.col < len { o + 1 } else { o };
                let mut out = copy_chars(&t, 0, p);
                append_chars(&mut out, &content, 0, content.len());
                append_chars(&mut out, &t, p, t.len());
                proof {
                    assert(content@.subrange(0, content@.len() as int) =~= content@);
                }
                self.set_text(&out, p);
            },
        }
    }

    /// Moves the cursor `n` times.
    fn move_cursor(&mut self, m: MovementKind, n: usize)
        requires
            old(self).wf(),
        ensures
            final(self).wf(),
            ({
                let p = moved(old(self).buffer@, old(self).cursor, m, n as nat, old(self).height as nat);
                match word_target(old(self).buffer@, old(self).cursor, m, n as nat) {
                    Some(off) => cursor_at(old(self).buffer@, off, final(self).cursor),
                    None => placed(old(self).buffer@, p.0, p.1, final(self).cursor),
                }
            }),
            final(self).buffer@ == old(self).buffer@,
            final(self).mode == old(self).mode,
            final(self).yanked == old(self).yanked,
            final(self).height == old(self).height,
            final(self).last == old(self).last,
    {
        let row = self.cursor.row;
        let col = self.cursor.col;
        let count = self.buffer.line_count();
        let h = self.height;
        let screen: usize = if h > 0 && n > usize::MAX / h {
            usize::MAX
        } else {
            proof {
                if h > 0 {
                    assert(n * h <= (usize::MAX / h) * h) by (nonlinear_arith)
                        requires n <= usize::MAX / h, h > 0;
                    assert((usize::MAX / h) * h <= usize::MAX) by (nonlinear_arith)
                        requires h > 0;
                }
            }
            n * h
        };
        proof {
            if h > 0 && n > usize::MAX / h {
                assert(n * h >= (usize::MAX / h + 1) * h) by (nonlinear_arith)
                    requires n >= usize::MAX / h + 1, h > 0;
                assert((usize::MAX / h + 1) * h > usize::MAX) by (nonlinear_arith)
                    requires h > 0;
            }
        }
        let (r, c): (usize, usize) = match m {
            MovementKind::CursorLeft => (row, if n > col { 0 } else { col - n }),
            MovementKind::CursorRight => {
                let len = self.buffer.row_len(row);
                (row, if n > len - col { len } else { col + n })
            },
            MovementKind::CursorDown => (if n > usize::MAX - row { usize::MAX } else { row + n }, col),
            MovementKind::CursorUp => (if n > row { 0 } else { row - n }, col),
            MovementKind::ScrollScreenDown => (if screen > usize::MAX - row { usize::MAX } else { row + screen }, col),
            MovementKind::ScrollScreenUp => (if screen > row { 0 } else { row - screen }, col),
            MovementKind::MoveToLineIndentHead => {
                let l = &self.buffer.lines()[row];
                assert(l@ == self.buffer@[row as int]);
                let mut k: usize = 0;
                while k < l.len() && (l[k] == ' ' || l[k] == '\t' || l[k] == '\n')
                    invariant
                        k <= l@.len(),
                        skip_blank(l@, 0) == skip_blank(l@, k as int),
                    decreases l@.len() - k,
                {
                    k = k + 1;
                }
                (row, k)
            },
            MovementKind::MoveToLineTail => (row, self.buffer.row_len(row)),
            MovementKind::MoveToHead => (0, col),
            MovementKind::MoveToTail => (count - 1, col),
            MovementKind::ForwardWord | MovementKind::BackWord => {
                let (t, o) = self.text_and_offset();
                let target = if matches!(m, MovementKind::ForwardWord) {
                    forward_words(&t, o, n)
                } else {
                    back_words(&t, o, n)
                };
                let (r, c) = self.buffer.position_of(target);
                self.cursor = Cursor { row: r, col: c };
                return;
            },
        };
        let ghost p = moved(self.buffer@, self.cursor, m, n as nat, h as nat);
        assert(clamp_row(self.buffer@, r as int) == clamp_row(self.buffer@, p.0));
        assert(min(c as int, self.buffer@[clamp_row(self.buffer@, p.0)].len() as int) == min(p.1, self.buffer@[clamp_row(self.buffer@, p.0)].len() as int));
        self.place(r, c);
    }
}

/// `a * b`, or the largest `usize` where the product does not fit.
fn saturating_times(a: usize, b: usize) -> (r: usize)
    ensures
        r == times(a, b),
{
    if b > 0 && a > usize::MAX / b {
        proof {
            assert(a * b >= (usize::MAX / b + 1) * b) by (nonlinear_arith)
                requires a >= usize::MAX / b + 1, b > 0;
            assert((usize::MAX / b + 1) * b > usize::MAX) by (nonlinear_arith)
                requires b > 0;
        }
        usize::MAX
    } else {
        proof {
            if b > 0 {
                assert(a * b <= (usize::MAX / b) * b) by (nonlinear_arith)
                    requires a <= usize::MAX / b, b > 0;
                assert((usize::MAX / b) * b <= usize::MAX) by (nonlinear_arith)
                    requires b > 0;
            }
        }
        a * b
    }
}

/// Whether `.` may replay `a`.
fn is_repeatable(a: Action) -> (r: bool)
    ensures
        r == repeatable(a),
{
    !matches!(a.kind, ActionKind::RepeatLast) && !matches!(a.kind, ActionKind::CancelPending)
}

impl State {
    /// Carries out `a`; `.` does nothing here.
    fn run_action(&mut self, a: Action)
        requires
            old(self).wf(),
        ensures
            final(self).wf(),
            applied(old(self), final(self), a),
            final(self).last == old(self).last,
    {
        proof {
            lemma_empty_is_incomplete();
        }
        let n = a.count;
        let row = self.cursor.row;
        let col = self.cursor.col;
        match a.kind {
            ActionKind::Movement(m) => {
                self.move_cursor(m, n);
                self.mode = Mode::Normal(Vec::new());
            },
            ActionKind::Edit(EditKind::RemoveChar) => {
                let len = self.buffer.row_len(row);
                let (_, o) = self.text_and_offset();
                proof {
                    lemma_offset_in_text(self.buffer@, row as int, len as int);
                }
                let end = if n > len - col { o - col + len } else { o + n };
                self.remove_span(Span::Text(o, end));
                self.mode = Mode::Normal(Vec::new());
            },
            ActionKind::Edit(EditKind::RemoveSelection(sel)) => {
                let sp = self.measure_selection(sel.kind, saturating_times(n, sel.count));
                self.remove_span(sp);
                self.mode = Mode::Normal(Vec::new());
            },
            ActionKind::Change(sel) => {
                let sp = self.measure_selection(sel.kind, saturating_times(n, sel.count));
                self.remove_span(sp);
                self.mode = Mode::Insert;
            },
            ActionKind::Yank(sel) => {
                let sp = self.measure_selection(sel.kind, saturating_times(n, sel.count));
                self.yanked = self.copy_span(sp);
                self.mode = Mode::Normal(Vec::new());
            },
            ActionKind::Edit(EditKind::AppendYank) => {
                self.paste(n, true);
                self.mode = Mode::Normal(Vec::new());
            },
            ActionKind::Edit(EditKind::InsertYank) => {
                self.paste(n, false);
                self.mode = Mode::Normal(Vec::new());
            },
            ActionKind::EnterInsertMode => {
                self.mode = Mode::Insert;
            },
            ActionKind::EnterAppendMode => {
                let len = self.buffer.row_len(row);
                self.place(row, if col < len { col + 1 } else { col });
                self.mode = Mode::Insert;
            },
            ActionKind::EnterCmdLineMode => {
                self.mode = Mode::CmdLine(Vec::new());
            },
            ActionKind::RepeatLast => {
                self.mode = Mode::Normal(Vec::new());
            },
            ActionKind::CancelPending => {
                self.mode = Mode::Normal(Vec::new());
            },
        }
    }

    /// Carries out a decoded command. `.` carries out the last action again
    /// (nothing when there is none); every other action becomes the last.
    pub fn dispatch(&mut self, a: Action)
        requires
            old(self).wf(),
        ensures
            final(self).wf(),
            a.kind is RepeatLast ==> match old(self).last {
                Some(b) => applied(old(self), final(self), b),
                None => applied(old(self), final(self), a),
            },
            !(a.kind is RepeatLast) ==> applied(old(self), final(self), a),
            final(self).last == if repeatable(a) {
                Some(a)
            } else {
                old(self).last
            },
    {
        if matches!(a.kind, ActionKind::RepeatLast) {
            match self.last {
                Some(b) => self.run_action(b),
                None => self.run_action(a),
            }
        } else {
            self.run_action(a);
            if is_repeatable(a) {
                self.last = Some(a);
            }
        }
    }
}

/// A key event.
#[derive(Clone, Copy, Debug, PartialEq, Eq, Structural)]
pub enum Key {
    Char(char),
    Ctrl(char),
    Esc,
    Backspace,
    Left,
    Right,
    Up,
    Down,
    Other,
}

/// What the session asks of its surroundings after a key.
#[derive(Debug)]
pub enum Signal {
    Nope,
    Quit,
    Write(Vec<char>),
}

/// The text that a key adds to pending normal-mode input: a printable
/// character stands for itself, other keys for a bracketed name.
pub open spec fn key_token(k: Key) -> Seq<char> {
    match k {
        Key::Char(c) => seq![c],
        Key::Ctrl(c) => seq!['<', 'C', '-', c, '>'],
        Key::Esc => seq!['<', 'E', 's', 'c', '>'],
        Key::Left => seq!['<', 'L', 'e', 'f', 't', '>'],
        Key::Right => seq!['<', 'R', 'i', 'g', 'h', 't', '>'],
        Key::Up => seq!['<', 'U', 'p', '>'],
        Key::Down => seq!['<', 'D', 'o', 'w', 'n', '>'],
        Key::Backspace | Key::Other => Seq::empty(),
    }
}

/// The key cancels: `Esc` or control-C.
pub open spec fn is_cancel(k: Key) -> bool {
    k == Key::Esc || k == Key::Ctrl('c')
}

fn push_all(p: &mut Vec<char>, t: &[char])
    ensures
        final(p)@ == old(p)@ + t@,
{
    let mut k: usize = 0;
    while k < t.len()
        invariant
            k <= t@.len(),
            p@ == old(p)@ + t@.subrange(0, k as int),
        decreases t@.len() - k,
    {
        p.push(t[k]);
        k = k + 1;
        assert(p@ =~= old(p)@ + t@.subrange(0, k as int));
    }
    assert(t@.subrange(0, t@.len() as int) =~= t@);
}

/// Appends the key's token to pending input.
pub fn push_token(p: &mut Vec<char>, k: Key)
    ensures
        final(p)@ == old(p)@ + key_token(k),
{
    match k {
        Key::Char(c) => push_all(p, &[c]),
        Key::Ctrl(c) => push_all(p, &['<', 'C', '-', c, '>']),
        Key::Esc => push_all(p, &['<', 'E', 's', 'c', '>']),
        Key::Left => push_all(p, &['<', 'L', 'e', 'f', 't', '>']),
        Key::Right => push_all(p, &['<', 'R', 'i', 'g', 'h', 't', '>']),
        Key::Up => push_all(p, &['<', 'U', 'p', '>']),
        Key::Down => push_all(p, &['<', 'D', 'o', 'w', 'n', '>']),
        Key::Backspace | Key::Other => {
            assert(p@ =~= p@ + key_token(k));
        },
    }
}

/// `t` is what `k` does to `s` in insert mode.
pub open spec fn inserted(s: &State, t: &State, k: Key) -> bool {
    let ls = s.buffer@;
    let r = s.cursor.row as int;
    let c = s.cursor.col as int;
    &&& t.yanked@ == s.yanked@
    &&& t.last == s.last
    &&& t.height == s.height
    &&& if k == Key::Char('\n') {
        &&& t.buffer@ == ls.subrange(0, r) + seq![ls[r].subrange(0, c), ls[r].subrange(c, ls[r].len() as int)] + ls.subrange(r + 1, ls.len() as int)
        &&& t.cursor == (Cursor { row: (r + 1) as usize, col: 0 })
        &&& t.mode@ == ModeView::Insert
    } else if k is Char {
        &&& t.buffer@ == ls.update(r, insert_at(ls[r], c, seq![k->Char_0]))
        &&& t.cursor == (Cursor { row: r as usize, col: (c + 1) as usize })
        &&& t.mode@ == ModeView::Insert
    } else if is_cancel(k) {
        kept(s, t) && t.mode@ == ModeView::Normal(Seq::empty())
    } else {
        kept(s, t) && t.mode@ == ModeView::Insert
    }
}

/// `t` and the signal `sig` are what `k` does to `s` in command-line mode,
/// with `p` typed so far.
pub open spec fn cmdline_stepped(s: &State, t: &State, p: Seq<char>, k: Key, sig: &Signal) -> bool {
    &&& kept(s, t)
    &&& t.last == s.last
    &&& t.height == s.height
    &&& if k == Key::Char('\n') {
        &&& t.mode@ == ModeView::Normal(Seq::empty())
        &&& match sig {
            Signal::Quit => is_quit(p),
            Signal::Write(path) => !is_quit(p) && write_path(p) == Some(path@),
            Signal::Nope => !is_quit(p) && write_path(p) is None,
        }
    } else {
        &&& sig is Nope
        &&& if k is Char {
            t.mode@ == ModeView::CmdLine(p.push(k->Char_0))
        } else if k == Key::Backspace {
            t.mode@ == ModeView::CmdLine(if p.len() > 0 { p.drop_last() } else { p })
        } else if is_cancel(k) {
            t.mode@ == ModeView::Normal(Seq::empty())
        } else {
            t.mode@ == ModeView::CmdLine(p)
        }
    }
}

/// `t` is what `k` does to `s` in normal mode, with `p` pending: the key's
/// token joins the pending input; a complete command is carried out, else the
/// input waits for more.
pub open spec fn normal_stepped(s: &State, t: &State, p: Seq<char>, k: Key) -> bool {
    let q = p + key_token(k);
    match parse_spec(q) {
        Some((_, a)) => {
            &&& (a.kind is RepeatLast ==> match s.last {
                Some(b) => applied(s, t, b),
                None => applied(s, t, a),
            })
            &&& (!(a.kind is RepeatLast) ==> applied(s, t, a))
            &&& t.last == if repeatable(a) { Some(a) } else { s.last }
        },
        None => {
            &&& kept(s, t)
            &&& t.last == s.last
            &&& t.height == s.height
            &&& t.mode@ == ModeView::Normal(q)
        },
    }
}

/// `t` and the signal `sig` are what key `k` does to `s`, in whatever mode
/// `s` is.
pub open spec fn key_handled(s: &State, t: &State, k: Key, sig: &Signal) -> bool {
    match s.mode@ {
        ModeView::Normal(p) => normal_stepped(s, t, p, k) && sig is Nope,
        ModeView::Insert => inserted(s, t, k) && sig is Nope,
        ModeView::CmdLine(p) => cmdline_stepped(s, t, p, k, sig),
    }
}

impl State {
    /// Insert mode: a character goes in at the cursor, a line break splits
    /// the row, and a cancel key returns to normal mode.
    fn handle_insert_mode(&mut self, k: Key)
        requires
            old(self).wf(),
            old(self).mode is Insert,
        ensures
            final(self).wf(),
            inserted(old(self), final(self), k),
    {
        proof {
            lemma_empty_is_incomplete();
        }
        let row = self.cursor.row;
        let col = self.cursor.col;
        match k {
            Key::Char(c) => {
                if c == '\n' {
                    self.buffer.split_line(col, row);
                    let count = self.buffer.line_count();
                    proof {
                        assert(row + 1 < count);
                    }
                    self.cursor = Cursor { row: row + 1, col: 0 };
                } else {
                    self.buffer.insert_char(col, row, c);
                    let len = self.buffer.row_len(row);
                    proof {
                        assert(col + 1 <= len);
                    }
                    self.cursor = Cursor { row, col: col + 1 };
                }
            },
            Key::Esc => {
                self.mode = Mode::Normal(Vec::new());
            },
            Key::Ctrl(c) => {
                if c == 'c' {
                    self.mode = Mode::Normal(Vec::new());
                }
            },
            _ => {},
        }
    }

    /// Handles one key event in whatever mode the session is in, and says
    /// what the surroundings must do: quit, write the text to a path, or
    /// nothing.
    pub fn handle_key(&mut self, k: Key) -> (sig: Signal)
        requires
            old(self).wf(),
        ensures
            final(self).wf(),
            key_handled(old(self), final(self), k, &sig),
    {
        proof {
            lemma_empty_is_incomplete();
        }
        match &mut self.mode {
            Mode::Normal(p) => {
                push_token(p, k);
                match parse(p) {
                    Some((_, a)) => {
                        self.mode = Mode::Normal(Vec::new());
                        self.dispatch(a);
                    },
                    None => {},
                }
                Signal::Nope
            },
            Mode::Insert => {
                self.handle_insert_mode(k);
                Signal::Nope
            },
            Mode::CmdLine(p) => {
                match k {
                    Key::Char(c) => {
                        if c == '\n' {
                            let sig = match parse_command(p) {
                                Some(Command::Quit) => Signal::Quit,
                                Some(Command::Write(path)) => Signal::Write(path),
                                None => Signal::Nope,
                            };
                            self.mode = Mode::Normal(Vec::new());
                            sig
                        } else {
                            p.push(c);
                            Signal::Nope
                        }
                    },
                    Key::Backspace => {
                        if p.len() > 0 {
                            p.pop();
                        }
                        Signal::Nope
                    },
                    Key::Esc => {
                        self.mode = Mode::Normal(Vec::new());
                        Signal::Nope
                    },
                    Key::Ctrl(c) => {
                        if c == 'c' {
                            self.mode = Mode::Normal(Vec::new());
                        }
                        Signal::Nope
                    },
                    _ => Signal::Nope,
                }
            },
        }
    }
}

proof fn lemma_repeat_once<T>(s: Seq<T>)
    ensures
        repeat(s, 1) == s,
{
    assert(repeat(s, 0) + s =~= s);
}

/// The text's row count and its length fit a `usize`, as they do for any
/// text held in memory.
pub open spec fn rows_fit(ls: Seq<Seq<char>>) -> bool {
    ls.len() <= usize::MAX && join(ls).len() <= usize::MAX
}

/// Every selection resolves to a span that lies in the text.
proof fn lemma_span_ok(ls: Seq<Seq<char>>, cur: Cursor, kind: SelectionKind, n: nat)
    requires
        cursor_ok(ls, cur),
        rows_fit(ls),
    ensures
        span_ok(ls, span_of(ls, cur.row as int, cur.col as int, kind, n)),
{
    let r = cur.row as int;
    lemma_offset_in_text(ls, r, cur.col as int);
    lemma_offset_in_text(ls, r, ls[r].len() as int);
    lemma_forward_n_bounds(join(ls), cursor_offset(ls, cur), n);
    lemma_back_n_bounds(join(ls), cursor_offset(ls, cur), n);
}

/// The span that a removing action takes out.
pub open spec fn removal_span(s: &State, a: Action) -> Span {
    let ls = s.buffer@;
    let r = s.cursor.row as int;
    let c = s.cursor.col as int;
    match a.kind {
        ActionKind::Edit(EditKind::RemoveSelection(sel)) => span_of(ls, r, c, sel.kind, times(a.count, sel.count) as nat),
        _ => remove_char_span(ls, s.cursor, a.count),
    }
}

/// Yanking a selection and then pasting before the cursor puts the yanked
/// text in again, verbatim, right at the cursor: whole lines above the
/// cursor's row, characters at the cursor's offset in the whole text.
#[verifier::spinoff_prover]
pub proof fn lemma_yank_then_paste(s: &State, t: &State, u: &State, sel: Selection, count: usize)
    requires
        s.wf(),
        applied(s, t, Action { count, kind: ActionKind::Yank(sel) }),
        applied(t, u, Action { count: 1, kind: ActionKind::Edit(EditKind::InsertYank) }),
    ensures
        t.yanked@ == span_content(
            s.buffer@,
            span_of(s.buffer@, s.cursor.row as int, s.cursor.col as int, sel.kind, times(count, sel.count) as nat),
        ),
        t.yanked@ matches RegisterView::Lines(v) ==> {
            &&& u.buffer@ == insert_rows(s.buffer@, s.cursor.row as int, v)
            &&& u.buffer@.subrange(s.cursor.row as int, s.cursor.row + v.len()) == v
        },
        t.yanked@ matches RegisterView::Chars(v) ==> {
            let o = cursor_offset(s.buffer@, s.cursor);
            &&& u.buffer@ == split_text(put_text(join(s.buffer@), o, v))
            &&& join(u.buffer@).subrange(o, o + v.len()) == v
        },
{
    let ls = s.buffer@;
    let r = s.cursor.row as int;
    let o = cursor_offset(ls, s.cursor);
    match t.yanked@ {
        RegisterView::Lines(v) => {
            lemma_repeat_once(v);
            assert(u.buffer@.subrange(r, r + v.len()) =~= v);
        },
        RegisterView::Chars(v) => {
            lemma_repeat_once(v);
            lemma_offset_in_text(ls, r, s.cursor.col as int);
            lemma_join_split(put_text(join(ls), o, v));
            assert(put_text(join(ls), o, v).subrange(o, o + v.len()) =~= v);
        },
    }
}

/// `yy` then `p`: yanking the cursor's row leaves the text as it is, and
/// pasting after puts a copy of that row right below it.
pub proof fn lemma_yank_line_then_paste_below(s: &State, t: &State, u: &State)
    requires
        s.wf(),
        rows_fit(s.buffer@),
        applied(s, t, Action { count: 1, kind: ActionKind::Yank(Selection { kind: SelectionKind::Line, count: 1 }) }),
        applied(t, u, Action { count: 1, kind: ActionKind::Edit(EditKind::AppendYank) }),
    ensures
        t.buffer@ == s.buffer@,
        u.buffer@ == s.buffer@.subrange(0, s.cursor.row + 1) + seq![s.buffer@[s.cursor.row as int]]
            + s.buffer@.subrange(s.cursor.row + 1, s.buffer@.len() as int),
{
    let ls = s.buffer@;
    let r = s.cursor.row as int;
    let v = ls.subrange(r, r + 1);
    assert(times(1, 1) == 1);
    assert(v =~= seq![ls[r]]);
    lemma_repeat_once(v);
    assert(min_end(r, 1, ls.len() as int) == r + 1);
    assert(t.yanked@ == RegisterView::Lines(v));
    assert(t.cursor == s.cursor);
    assert(u.buffer@ == insert_rows(ls, r + 1, v));
    assert(insert_rows(ls, r + 1, v) =~= ls.subrange(0, r + 1) + seq![ls[r]] + ls.subrange(r + 1, ls.len() as int));
}

/// A remove always lands in the register: the register then holds exactly
/// the span taken out, and pasting it before the cursor right away puts that
/// text in again verbatim at the cursor. Characters pasted back this way
/// give the whole text as it was before the remove.
#[verifier::spinoff_prover]
#[verifier::rlimit(60)]
pub proof fn lemma_remove_then_paste(s: &State, t: &State, u: &State, a: Action)
    requires
        s.wf(),
        rows_fit(s.buffer@),
        a.kind matches ActionKind::Edit(e) && (e is RemoveChar || e is RemoveSelection),
        applied(s, t, a),
        applied(t, u, Action { count: 1, kind: ActionKind::Edit(EditKind::InsertYank) }),
    ensures
        t.yanked@ == span_content(s.buffer@, removal_span(s, a)),
        t.yanked@ matches RegisterView::Chars(v) ==> join(u.buffer@) == join(s.buffer@),
        t.yanked@ matches RegisterView::Lines(v) ==> u.buffer@.subrange(
            t.cursor.row as int,
            t.cursor.row + v.len(),
        ) == v,
{
    let ls = s.buffer@;
    let r = s.cursor.row as int;
    if let ActionKind::Edit(EditKind::RemoveSelection(sel)) = a.kind {
        lemma_span_ok(ls, s.cursor, sel.kind, times(a.count, sel.count) as nat);
    } else {
        lemma_offset_in_text(ls, r, s.cursor.col as int);
        lemma_offset_in_text(ls, r, ls[r].len() as int);
    }
    let sp = removal_span(s, a);
    assert(span_ok(ls, sp));
    match sp {
        Span::Text(x, y) => {
            let tx = join(ls);
            let v = tx.subrange(x as int, y as int);
            let cut = cut_text(tx, x as int, y as int);
            lemma_repeat_once(v);
            lemma_join_split(cut);
            assert(cursor_offset(t.buffer@, t.cursor) == x);
            assert(put_text(cut, x as int, v) =~= tx);
            lemma_join_split(tx);
        },
        Span::Lines(x, y) => {
            let v = ls.subrange(x as int, y as int);
            lemma_repeat_once(v);
            assert(u.buffer@.subrange(t.cursor.row as int, t.cursor.row + v.len()) =~= v);
        },
    }
}

/// A cancel key (`Esc` or control-C) always leaves the session in normal
/// mode with nothing pending, in every mode and however much input was
/// pending before it.
pub proof fn lemma_cancel_resets(s: &State, t: &State, k: Key, sig: &Signal)
    requires
        s.wf(),
        is_cancel(k),
        key_handled(s, t, k, sig),
    ensures
        t.mode@ == ModeView::Normal(Seq::empty()),
{
    if let ModeView::Normal(p) = s.mode@ {
        let tok = key_token(k);
        assert(is_cancel_token(tok));
        lemma_cancel_completes(p, tok);
    }
}

/// With `d` pending, a second `d` and the whole-line selection token `_`
/// leave the same text, cursor, register and mode.
pub proof fn lemma_dd_same_as_line_selection(s: &State, t1: &State, t2: &State)
    requires
        s.wf(),
        normal_stepped(s, t1, seq!['d'], Key::Char('d')),
        normal_stepped(s, t2, seq!['d'], Key::Char('_')),
    ensures
        t1.buffer@ == t2.buffer@,
        t1.cursor == t2.cursor,
        t1.yanked@ == t2.yanked@,
        t1.mode@ == t2.mode@,
{
    lemma_dd_is_line_selection(Seq::empty());
    assert(seq!['d'] + key_token(Key::Char('d')) =~= seq!['d', 'd'] + Seq::<char>::empty());
    assert(seq!['d'] + key_token(Key::Char('_')) =~= seq!['d', '_'] + Seq::<char>::empty());
}

} // verus!
