use vstd::prelude::*;

use crate::action::{Action, ActionKind, EditKind, MovementKind, Selection, SelectionKind};

verus! {

/// `t` stands in `s` at position `i`.
pub open spec fn lit_at(s: Seq<char>, i: int, t: Seq<char>) -> bool {
    0 <= i && i + t.len() <= s.len() && s.subrange(i, i + t.len()) =~= t
}

pub open spec fn is_digit(c: char) -> bool {
    '0' <= c && c <= '9'
}

/// How many decimal digits stand in `s` from position `i` on.
pub open spec fn digit_run(s: Seq<char>, i: int) -> nat
    decreases s.len() - i,
{
    if 0 <= i < s.len() && is_digit(s[i]) {
        1 + digit_run(s, i + 1)
    } else {
        0
    }
}

/// The number that a string of decimal digits writes.
pub open spec fn digits_value(d: Seq<char>) -> nat
    decreases d.len(),
{
    if d.len() == 0 {
        0
    } else {
        digits_value(d.drop_last()) * 10 + (d.last() as nat - '0' as nat) as nat
    }
}

/// The repeat count that a leading digit run gives: 1 when there is none,
/// when the number does not fit a `usize`, or when it is zero. A leading `0`
/// is read as a count digit, not as a command of its own; a count of zero
/// stands for the default count, so that every count is positive.
pub open spec fn count_of(d: Seq<char>) -> usize {
    if d.len() == 0 || digits_value(d) == 0 || digits_value(d) > usize::MAX {
        1
    } else {
        digits_value(d) as usize
    }
}

/// The selection token at position `i`, with its length. Alternatives are
/// tried in this order and the first that matches wins.
pub open spec fn selection_at(s: Seq<char>, i: int) -> Option<(int, SelectionKind)> {
    if lit_at(s, i, seq!['i', 'w']) {
        Some((2, SelectionKind::Word))
    } else if lit_at(s, i, seq!['h']) {
        Some((1, SelectionKind::Left))
    } else if lit_at(s, i, seq!['j']) {
        Some((1, SelectionKind::Down))
    } else if lit_at(s, i, seq!['k']) {
        Some((1, SelectionKind::Up))
    } else if lit_at(s, i, seq!['l']) {
        Some((1, SelectionKind::Right))
    } else if lit_at(s, i, seq!['w']) {
        Some((1, SelectionKind::ForwardWord))
    } else if lit_at(s, i, seq!['b']) {
        Some((1, SelectionKind::BackWord))
    } else if lit_at(s, i, seq!['_']) {
        Some((1, SelectionKind::Line))
    } else if lit_at(s, i, seq!['$']) {
        Some((1, SelectionKind::LineRemain))
    } else {
        None
    }
}

/// The movement token at position `i`, with its length.
pub open spec fn movement_at(s: Seq<char>, i: int) -> Option<(int, MovementKind)> {
    if lit_at(s, i, seq!['<', 'C', '-', 'f', '>']) {
        Some((5, MovementKind::ScrollScreenDown))
    } else if lit_at(s, i, seq!['<', 'C', '-', 'b', '>']) {
        Some((5, MovementKind::ScrollScreenUp))
    } else if lit_at(s, i, seq!['^']) {
        Some((1, MovementKind::MoveToLineIndentHead))
    } else if lit_at(s, i, seq!['$']) {
        Some((1, MovementKind::MoveToLineTail))
    } else if lit_at(s, i, seq!['g', 'g']) {
        Some((2, MovementKind::MoveToHead))
    } else if lit_at(s, i, seq!['G']) {
        Some((1, MovementKind::MoveToTail))
    } else if lit_at(s, i, seq!['h']) {
        Some((1, MovementKind::CursorLeft))
    } else if lit_at(s, i, seq!['<', 'L', 'e', 'f', 't', '>']) {
        Some((6, MovementKind::CursorLeft))
    } else if lit_at(s, i, seq!['j']) {
        Some((1, MovementKind::CursorDown))
    } else if lit_at(s, i, seq!['<', 'D', 'o', 'w', 'n', '>']) {
        Some((6, MovementKind::CursorDown))
    } else if lit_at(s, i, seq!['k']) {
        Some((1, MovementKind::CursorUp))
    } else if lit_at(s, i, seq!['<', 'U', 'p', '>']) {
        Some((4, MovementKind::CursorUp))
    } else if lit_at(s, i, seq!['l']) {
        Some((1, MovementKind::CursorRight))
    } else if lit_at(s, i, seq!['<', 'R', 'i', 'g', 'h', 't', '>']) {
        Some((7, MovementKind::CursorRight))
    } else if lit_at(s, i, seq!['w']) {
        Some((1, MovementKind::ForwardWord))
    } else if lit_at(s, i, seq!['b']) {
        Some((1, MovementKind::BackWord))
    } else {
        None
    }
}

/// A cancel token (`<C-c>` or `<Esc>`) stands at position `i`.
pub open spec fn cancel_token_at(s: Seq<char>, i: int) -> bool {
    lit_at(s, i, seq!['<', 'C', '-', 'c', '>']) || lit_at(s, i, seq!['<', 'E', 's', 'c', '>'])
}

/// Where the first cancel token at or after `i` ends.
pub open spec fn cancel_end(s: Seq<char>, i: int) -> Option<int>
    decreases s.len() - i,
{
    if i < 0 || i >= s.len() {
        None
    } else if cancel_token_at(s, i) {
        Some(i + 5)
    } else {
        cancel_end(s, i + 1)
    }
}

/// A prefix letter followed by a selection token, as in `d` + `w`.
pub open spec fn prefixed_selection(s: Seq<char>, i: int, c: char) -> Option<(int, Selection)> {
    if lit_at(s, i, seq![c]) {
        match selection_at(s, i + 1) {
            Some((n, k)) => Some((n + 1, Selection { kind: k, count: 1 })),
            None => None,
        }
    } else {
        None
    }
}

/// The action kind at position `i` (after any count), with its length.
pub open spec fn kind_at(s: Seq<char>, i: int) -> Option<(int, ActionKind)> {
    let once = |k: SelectionKind| Selection { kind: k, count: 1 };
    if movement_at(s, i) is Some {
        let (n, m) = movement_at(s, i).unwrap();
        Some((n, ActionKind::Movement(m)))
    } else if lit_at(s, i, seq!['x']) {
        Some((1, ActionKind::Edit(EditKind::RemoveChar)))
    } else if lit_at(s, i, seq!['i']) {
        Some((1, ActionKind::EnterInsertMode))
    } else if lit_at(s, i, seq!['a']) {
        Some((1, ActionKind::EnterAppendMode))
    } else if lit_at(s, i, seq![':']) {
        Some((1, ActionKind::EnterCmdLineMode))
    } else if lit_at(s, i, seq!['p']) {
        Some((1, ActionKind::Edit(EditKind::AppendYank)))
    } else if lit_at(s, i, seq!['P']) {
        Some((1, ActionKind::Edit(EditKind::InsertYank)))
    } else if lit_at(s, i, seq!['.']) {
        Some((1, ActionKind::RepeatLast))
    } else if lit_at(s, i, seq!['d', 'd']) {
        Some((2, ActionKind::Edit(EditKind::RemoveSelection(once(SelectionKind::Line)))))
    } else if prefixed_selection(s, i, 'd') is Some {
        let (n, sel) = prefixed_selection(s, i, 'd').unwrap();
        Some((n, ActionKind::Edit(EditKind::RemoveSelection(sel))))
    } else if lit_at(s, i, seq!['D']) {
        Some((1, ActionKind::Edit(EditKind::RemoveSelection(once(SelectionKind::LineRemain)))))
    } else if lit_at(s, i, seq!['c', 'c']) {
        Some((2, ActionKind::Change(once(SelectionKind::Line))))
    } else if prefixed_selection(s, i, 'c') is Some {
        let (n, sel) = prefixed_selection(s, i, 'c').unwrap();
        Some((n, ActionKind::Change(sel)))
    } else if lit_at(s, i, seq!['C']) {
        Some((1, ActionKind::Change(once(SelectionKind::LineRemain))))
    } else if lit_at(s, i, seq!['y', 'y']) || lit_at(s, i, seq!['Y']) {
        Some((if lit_at(s, i, seq!['y', 'y']) { 2int } else { 1int }, ActionKind::Yank(once(SelectionKind::Line))))
    } else if prefixed_selection(s, i, 'y') is Some {
        let (n, sel) = prefixed_selection(s, i, 'y').unwrap();
        Some((n, ActionKind::Yank(sel)))
    } else if cancel_end(s, i) is Some {
        Some((cancel_end(s, i).unwrap() - i, ActionKind::CancelPending))
    } else {
        None
    }
}

/// The command at the start of `s`: how many characters it takes, and the
/// action. `None` when `s` does not start with a complete command.
pub open spec fn parse_spec(s: Seq<char>) -> Option<(int, Action)> {
    let d = digit_run(s, 0) as int;
    match kind_at(s, d) {
        Some((n, k)) => Some((d + n, Action { count: count_of(s.subrange(0, d)), kind: k })),
        None => None,
    }
}

/// Whether `t` stands in `s` at position `i`.
fn lit(s: &Vec<char>, i: usize, t: &[char]) -> (r: bool)
    ensures
        r == lit_at(s@, i as int, t@),
{
    if i > s.len() || t.len() > s.len() - i {
        return false;
    }
    let mut k: usize = 0;
    while k < t.len()
        invariant
            i as int + t@.len() <= s@.len(),
            s@.len() <= usize::MAX,
            k <= t@.len(),
            forall|j: int| 0 <= j < k ==> s@[i + j] == t@[j],
        decreases t@.len() - k,
    {
        if s[i + k] != t[k] {
            assert(s@.subrange(i as int, i + t@.len())[k as int] != t@[k as int]);
            return false;
        }
        k = k + 1;
    }
    assert(s@.subrange(i as int, i + t@.len()) =~= t@);
    true
}

proof fn lemma_digit_run_bound(s: Seq<char>, i: int)
    requires
        0 <= i <= s.len(),
    ensures
        i + digit_run(s, i) <= s.len(),
        forall|j: int| i <= j < i + digit_run(s, i) ==> is_digit(#[trigger] s[j]),
        i + digit_run(s, i) < s.len() ==> !is_digit(s[i + digit_run(s, i)]),
    decreases s.len() - i,
{
    if i < s.len() && is_digit(s[i]) {
        lemma_digit_run_bound(s, i + 1);
    }
}

proof fn lemma_digits_value_grows(d: Seq<char>, c: char)
    requires
        is_digit(c),
    ensures
        digits_value(d.push(c)) == digits_value(d) * 10 + (c as nat - '0' as nat),
        digits_value(d.push(c)) >= digits_value(d),
{
    assert(d.push(c).drop_last() =~= d);
}

/// Reads the leading count of `s`: where its digit run ends, and the count.
fn parse_count(s: &Vec<char>) -> (r: (usize, usize))
    ensures
        r.0 == digit_run(s@, 0),
        r.1 == count_of(s@.subrange(0, r.0 as int)),
{
    let mut k: usize = 0;
    let mut value: usize = 0;
    let mut fits = true;
    proof {
        lemma_digit_run_bound(s@, 0);
    }
    while k < s.len() && '0' <= s[k] && s[k] <= '9'
        invariant
            k <= digit_run(s@, 0),
            digit_run(s@, 0) <= s@.len(),
            forall|j: int| 0 <= j < digit_run(s@, 0) ==> is_digit(#[trigger] s@[j]),
            digit_run(s@, 0) < s@.len() ==> !is_digit(s@[digit_run(s@, 0) as int]),
            fits ==> value == digits_value(s@.subrange(0, k as int)),
            !fits ==> digits_value(s@.subrange(0, k as int)) > usize::MAX,
        decreases s@.len() - k,
    {
        let c = s[k];
        proof {
            assert(s@.subrange(0, k + 1) =~= s@.subrange(0, k as int).push(c));
            lemma_digits_value_grows(s@.subrange(0, k as int), c);
        }
        let digit = (c as u32 - '0' as u32) as usize;
        if fits {
            if value > (usize::MAX - digit) / 10 {
                fits = false;
            } else {
                value = value * 10 + digit;
            }
        }
        k = k + 1;
    }
    if k == 0 || !fits || value == 0 {
        (k, 1)
    } else {
        (k, value)
    }
}

fn selection(s: &Vec<char>, i: usize) -> (r: Option<(usize, SelectionKind)>)
    ensures
        match r {
            Some((n, k)) => selection_at(s@, i as int) == Some((n as int, k)),
            None => selection_at(s@, i as int) is None,
        },
{
    if lit(s, i, &['i', 'w']) {
        Some((2, SelectionKind::Word))
    } else if lit(s, i, &['h']) {
        Some((1, SelectionKind::Left))
    } else if lit(s, i, &['j']) {
        Some((1, SelectionKind::Down))
    } else if lit(s, i, &['k']) {
        Some((1, SelectionKind::Up))
    } else if lit(s, i, &['l']) {
        Some((1, SelectionKind::Right))
    } else if lit(s, i, &['w']) {
        Some((1, SelectionKind::ForwardWord))
    } else if lit(s, i, &['b']) {
        Some((1, SelectionKind::BackWord))
    } else if lit(s, i, &['_']) {
        Some((1, SelectionKind::Line))
    } else if lit(s, i, &['$']) {
        Some((1, SelectionKind::LineRemain))
    } else {
        None
    }
}

fn movement(s: &Vec<char>, i: usize) -> (r: Option<(usize, MovementKind)>)
    ensures
        match r {
            Some((n, k)) => movement_at(s@, i as int) == Some((n as int, k)),
            None => movement_at(s@, i as int) is None,
        },
{
    if lit(s, i, &['<', 'C', '-', 'f', '>']) {
        Some((5, MovementKind::ScrollScreenDown))
    } else if lit(s, i, &['<', 'C', '-', 'b', '>']) {
        Some((5, MovementKind::ScrollScreenUp))
    } else if lit(s, i, &['^']) {
        Some((1, MovementKind::MoveToLineIndentHead))
    } else if lit(s, i, &['$']) {
        Some((1, MovementKind::MoveToLineTail))
    } else if lit(s, i, &['g', 'g']) {
        Some((2, MovementKind::MoveToHead))
    } else if lit(s, i, &['G']) {
        Some((1, MovementKind::MoveToTail))
    } else if lit(s, i, &['h']) {
        Some((1, MovementKind::CursorLeft))
    } else if lit(s, i, &['<', 'L', 'e', 'f', 't', '>']) {
        Some((6, MovementKind::CursorLeft))
    } else if lit(s, i, &['j']) {
        Some((1, MovementKind::CursorDown))
    } else if lit(s, i, &['<', 'D', 'o', 'w', 'n', '>']) {
        Some((6, MovementKind::CursorDown))
    } else if lit(s, i, &['k']) {
        Some((1, MovementKind::CursorUp))
    } else if lit(s, i, &['<', 'U', 'p', '>']) {
        Some((4, MovementKind::CursorUp))
    } else if lit(s, i, &['l']) {
        Some((1, MovementKind::CursorRight))
    } else if lit(s, i, &['<', 'R', 'i', 'g', 'h', 't', '>']) {
        Some((7, MovementKind::CursorRight))
    } else if lit(s, i, &['w']) {
        Some((1, MovementKind::ForwardWord))
    } else if lit(s, i, &['b']) {
        Some((1, MovementKind::BackWord))
    } else {
        None
    }
}

proof fn lemma_cancel_end_bound(s: Seq<char>, i: int)
    ensures
        cancel_end(s, i) is Some ==> i + 5 <= cancel_end(s, i).unwrap() <= s.len(),
    decreases s.len() - i,
{
    if 0 <= i < s.len() && !cancel_token_at(s, i) {
        lemma_cancel_end_bound(s, i + 1);
    }
}

proof fn lemma_kind_len(s: Seq<char>, i: int)
    requires
        0 <= i,
    ensures
        kind_at(s, i) is Some ==> 0 < kind_at(s, i).unwrap().0 && i + kind_at(s, i).unwrap().0 <= s.len(),
{
    lemma_cancel_end_bound(s, i);
}

/// Finds where the first cancel token at or after `i` ends.
fn cancel(s: &Vec<char>, i: usize) -> (r: Option<usize>)
    ensures
        match r {
            Some(e) => cancel_end(s@, i as int) == Some(e as int),
            None => cancel_end(s@, i as int) is None,
        },
{
    let mut j: usize = i;
    while j < s.len()
        invariant
            i <= j,
            cancel_end(s@, i as int) == cancel_end(s@, j as int),
        decreases s@.len() - j,
    {
        if lit(s, j, &['<', 'C', '-', 'c', '>']) || lit(s, j, &['<', 'E', 's', 'c', '>']) {
            return Some(j + 5);
        }
        j = j + 1;
    }
    None
}

fn prefixed(s: &Vec<char>, i: usize, c: char) -> (r: Option<(usize, Selection)>)
    ensures
        match r {
            Some((n, sel)) => prefixed_selection(s@, i as int, c) == Some((n as int, sel)),
            None => prefixed_selection(s@, i as int, c) is None,
        },
{
    if i < s.len() && lit(s, i, &[c]) {
        match selection(s, i + 1) {
            Some((n, k)) => Some((n + 1, k.once())),
            None => None,
        }
    } else {
        None
    }
}

fn kind(s: &Vec<char>, i: usize) -> (r: Option<(usize, ActionKind)>)
    ensures
        match r {
            Some((n, k)) => kind_at(s@, i as int) == Some((n as int, k)),
            None => kind_at(s@, i as int) is None,
        },
{
    if let Some((n, m)) = movement(s, i) {
        Some((n, ActionKind::Movement(m)))
    } else if lit(s, i, &['x']) {
        Some((1, ActionKind::Edit(EditKind::RemoveChar)))
    } else if lit(s, i, &['i']) {
        Some((1, ActionKind::EnterInsertMode))
    } else if lit(s, i, &['a']) {
        Some((1, ActionKind::EnterAppendMode))
    } else if lit(s, i, &[':']) {
        Some((1, ActionKind::EnterCmdLineMode))
    } else if lit(s, i, &['p']) {
        Some((1, ActionKind::Edit(EditKind::AppendYank)))
    } else if lit(s, i, &['P']) {
        Some((1, ActionKind::Edit(EditKind::InsertYank)))
    } else if lit(s, i, &['.']) {
        Some((1, ActionKind::RepeatLast))
    } else if lit(s, i, &['d', 'd']) {
        Some((2, ActionKind::Edit(EditKind::RemoveSelection(SelectionKind::Line.once()))))
    } else if let Some((n, sel)) = prefixed(s, i, 'd') {
        Some((n, ActionKind::Edit(EditKind::RemoveSelection(sel))))
    } else if lit(s, i, &['D']) {
        Some((1, ActionKind::Edit(EditKind::RemoveSelection(SelectionKind::LineRemain.once()))))
    } else if lit(s, i, &['c', 'c']) {
        Some((2, ActionKind::Change(SelectionKind::Line.once())))
    } else if let Some((n, sel)) = prefixed(s, i, 'c') {
        Some((n, ActionKind::Change(sel)))
    } else if lit(s, i, &['C']) {
        Some((1, ActionKind::Change(SelectionKind::LineRemain.once())))
    } else if lit(s, i, &['y', 'y']) {
        Some((2, ActionKind::Yank(SelectionKind::Line.once())))
    } else if lit(s, i, &['Y']) {
        Some((1, ActionKind::Yank(SelectionKind::Line.once())))
    } else if let Some((n, sel)) = prefixed(s, i, 'y') {
        Some((n, ActionKind::Yank(sel)))
    } else if let Some(e) = cancel(s, i) {
        proof {
            lemma_cancel_end_bound(s@, i as int);
        }
        Some((e - i, ActionKind::CancelPending))
    } else {
        None
    }
}

/// Decodes the command at the start of `input`: how many characters it takes,
/// and the action; `None` while `input` holds no complete command yet.
pub fn parse(input: &Vec<char>) -> (r: Option<(usize, Action)>)
    ensures
        match r {
            Some((n, a)) => parse_spec(input@) == Some((n as int, a)),
            None => parse_spec(input@) is None,
        },
{
    let (d, count) = parse_count(input);
    let len = input.len();
    proof {
        lemma_digit_run_bound(input@, 0);
        lemma_kind_len(input@, d as int);
        assert(d <= len);
    }
    match kind(input, d) {
        Some((n, k)) => Some((d + n, Action { count, kind: k })),
        None => None,
    }
}

proof fn lemma_digit_run_prefix(d: Seq<char>, r: Seq<char>, i: int)
    requires
        0 <= i <= d.len(),
        forall|j: int| 0 <= j < d.len() ==> is_digit(#[trigger] d[j]),
        r.len() == 0 || !is_digit(r[0]),
    ensures
        digit_run(d + r, i) == d.len() - i,
    decreases d.len() - i,
{
    if i < d.len() {
        lemma_digit_run_prefix(d, r, i + 1);
    } else {
        assert(r.len() == 0 || (d + r)[i] == r[0]);
    }
}

/// A command's count is the number its leading digits write, and 1 where it
/// has none: `N<action>` decodes with count `N`.
pub proof fn lemma_count_prefix(d: Seq<char>, r: Seq<char>)
    requires
        forall|j: int| 0 <= j < d.len() ==> is_digit(#[trigger] d[j]),
        digits_value(d) <= usize::MAX,
        r.len() == 0 || !is_digit(r[0]),
    ensures
        parse_spec(d + r) matches Some((_, a)) ==> a.count == if d.len() == 0 || digits_value(d) == 0 {
            1
        } else {
            digits_value(d)
        },
        parse_spec(d + r) matches Some((_, a)) ==> a.kind == kind_at(r, 0).unwrap().1,
        parse_spec(d + r) matches Some((m, _)) ==> m == d.len() + kind_at(r, 0).unwrap().0,
        parse_spec(d + r) is Some <==> kind_at(r, 0) is Some,
{
    lemma_digit_run_prefix(d, r, 0);
    assert((d + r).subrange(0, d.len() as int) =~= d);
    lemma_kind_shift(d, r);
}

/// What follows a prefix decodes the same wherever the prefix puts it.
proof fn lemma_kind_shift(d: Seq<char>, r: Seq<char>)
    ensures
        kind_at(d + r, d.len() as int) == kind_at(r, 0),
{
    let s = d + r;
    let i = d.len() as int;
    assert forall|j: int, t: Seq<char>| #![trigger lit_at(s, i + j, t)]
        0 <= j ==> lit_at(s, i + j, t) == lit_at(r, j, t) by {
        if 0 <= j && i + j + t.len() <= s.len() {
            assert(s.subrange(i + j, i + j + t.len()) =~= r.subrange(j, j + t.len()));
        }
    }
    assert(selection_at(s, i + 1) == selection_at(r, 1));
    lemma_cancel_shift(d, r, 0);
}

proof fn lemma_cancel_shift(d: Seq<char>, r: Seq<char>, j: int)
    requires
        0 <= j,
    ensures
        cancel_end(d + r, d.len() + j) == match cancel_end(r, j) {
            Some(e) => Some(d.len() + e),
            None => None,
        },
    decreases r.len() - j,
{
    let s = d + r;
    let i = d.len() as int;
    if j < r.len() {
        lemma_cancel_shift(d, r, j + 1);
        if i + j + 5 <= s.len() {
            assert(s.subrange(i + j, i + j + 5) =~= r.subrange(j, j + 5));
        }
    }
}

/// `dd` and `d` followed by the whole-line selection token `_` decode to the
/// same action, whatever follows them.
pub proof fn lemma_dd_is_line_selection(r: Seq<char>)
    ensures
        parse_spec(seq!['d', 'd'] + r) == parse_spec(seq!['d', '_'] + r),
        parse_spec(seq!['d', 'd'] + r) == Some((
            2int,
            Action {
                count: 1,
                kind: ActionKind::Edit(EditKind::RemoveSelection(Selection { kind: SelectionKind::Line, count: 1 })),
            },
        )),
{
    let a = seq!['d', 'd'] + r;
    let b = seq!['d', '_'] + r;
    assert(digit_run(a, 0) == 0);
    assert(digit_run(b, 0) == 0);
    assert(a.subrange(0, 2) =~= seq!['d', 'd']);
    assert(b.subrange(0, 2) =~= seq!['d', '_']);
    assert(a.subrange(0, 1) =~= seq!['d']);
    assert(b.subrange(0, 1) =~= seq!['d']);
    assert(b.subrange(1, 2) =~= seq!['_']);
    assert(a.subrange(0, 0) =~= Seq::<char>::empty());
    assert(b.subrange(0, 0) =~= Seq::<char>::empty());
}

proof fn lemma_digit_run_extend(p: Seq<char>, t: Seq<char>, i: int)
    requires
        0 <= i <= p.len(),
        t.len() > 0,
        !is_digit(t[0]),
    ensures
        digit_run(p + t, i) == digit_run(p, i),
    decreases p.len() - i,
{
    if i < p.len() {
        lemma_digit_run_extend(p, t, i + 1);
    } else {
        assert((p + t)[i] == t[0]);
    }
}

proof fn lemma_cancel_found(q: Seq<char>, j: int, at: int)
    requires
        0 <= j <= at,
        cancel_token_at(q, at),
    ensures
        cancel_end(q, j) is Some,
    decreases at - j,
{
    if j < at && !cancel_token_at(q, j) {
        lemma_cancel_found(q, j + 1, at);
    }
}

/// Nothing is pending but input with no complete command: an empty pending
/// input decodes to nothing.
pub proof fn lemma_empty_is_incomplete()
    ensures
        parse_spec(Seq::<char>::empty()) is None,
{
    let e = Seq::<char>::empty();
    assert(digit_run(e, 0) == 0);
    assert(cancel_end(e, 0) is None);
}

/// A cancel token: `<Esc>` or `<C-c>`.
pub open spec fn is_cancel_token(t: Seq<char>) -> bool {
    t == seq!['<', 'E', 's', 'c', '>'] || t == seq!['<', 'C', '-', 'c', '>']
}

/// A token without `<` matches after `p` only where it matches in `p`.
proof fn lemma_lit_plain(p: Seq<char>, t: Seq<char>, j: int, u: Seq<char>)
    requires
        is_cancel_token(t),
        0 <= j <= p.len() + 1,
        u.len() > 0,
        forall|k: int| 0 <= k < u.len() ==> u[k] != '<',
        j == p.len() + 1 ==> u[0] != 'E' && u[0] != 'C',
    ensures
        lit_at(p + t, j, u) == lit_at(p, j, u),
{
    let q = p + t;
    let n = p.len() as int;
    if j + u.len() <= n {
        assert(q.subrange(j, j + u.len()) =~= p.subrange(j, j + u.len()));
    } else if lit_at(q, j, u) {
        if j <= n {
            assert(q.subrange(j, j + u.len())[n - j] == q[n]);
        } else {
            assert(q.subrange(j, j + u.len())[0] == q[n + 1]);
        }
    }
}

/// A bracketed token other than the cancel token matches after `p` only
/// where it matches in `p`.
proof fn lemma_lit_angle(p: Seq<char>, t: Seq<char>, j: int, u: Seq<char>)
    requires
        is_cancel_token(t),
        0 <= j <= p.len(),
        u.len() >= 4,
        u[0] == '<',
        forall|k: int| 0 < k < u.len() ==> u[k] != '<',
        u[1] != t[1] || u[3] != t[3],
    ensures
        lit_at(p + t, j, u) == lit_at(p, j, u),
{
    let q = p + t;
    let n = p.len() as int;
    if j + u.len() <= n {
        assert(q.subrange(j, j + u.len()) =~= p.subrange(j, j + u.len()));
    } else if lit_at(q, j, u) {
        if j < n {
            assert(q.subrange(j, j + u.len())[n - j] == q[n]);
        } else {
            assert(q.subrange(j, j + u.len())[1] == q[n + 1]);
            assert(q.subrange(j, j + u.len())[3] == q[n + 3]);
        }
    }
}

proof fn lemma_selection_same(p: Seq<char>, t: Seq<char>, j: int)
    requires
        is_cancel_token(t),
        0 <= j <= p.len() + 1,
    ensures
        selection_at(p + t, j) == selection_at(p, j),
{
    lemma_lit_plain(p, t, j, seq!['i', 'w']);
    lemma_lit_plain(p, t, j, seq!['h']);
    lemma_lit_plain(p, t, j, seq!['j']);
    lemma_lit_plain(p, t, j, seq!['k']);
    lemma_lit_plain(p, t, j, seq!['l']);
    lemma_lit_plain(p, t, j, seq!['w']);
    lemma_lit_plain(p, t, j, seq!['b']);
    lemma_lit_plain(p, t, j, seq!['_']);
    lemma_lit_plain(p, t, j, seq!['$']);
}

proof fn lemma_prefixed_same(p: Seq<char>, t: Seq<char>, j: int, c: char)
    requires
        is_cancel_token(t),
        0 <= j <= p.len(),
        c != '<',
    ensures
        prefixed_selection(p + t, j, c) == prefixed_selection(p, j, c),
{
    lemma_lit_plain(p, t, j, seq![c]);
    lemma_selection_same(p, t, j + 1);
}

proof fn lemma_movement_same(p: Seq<char>, t: Seq<char>, j: int)
    requires
        is_cancel_token(t),
        0 <= j <= p.len(),
    ensures
        movement_at(p + t, j) == movement_at(p, j),
{
    lemma_lit_angle(p, t, j, seq!['<', 'C', '-', 'f', '>']);
    lemma_lit_angle(p, t, j, seq!['<', 'C', '-', 'b', '>']);
    lemma_lit_plain(p, t, j, seq!['^']);
    lemma_lit_plain(p, t, j, seq!['$']);
    lemma_lit_plain(p, t, j, seq!['g', 'g']);
    lemma_lit_plain(p, t, j, seq!['G']);
    lemma_lit_plain(p, t, j, seq!['h']);
    lemma_lit_angle(p, t, j, seq!['<', 'L', 'e', 'f', 't', '>']);
    lemma_lit_plain(p, t, j, seq!['j']);
    lemma_lit_angle(p, t, j, seq!['<', 'D', 'o', 'w', 'n', '>']);
    lemma_lit_plain(p, t, j, seq!['k']);
    lemma_lit_angle(p, t, j, seq!['<', 'U', 'p', '>']);
    lemma_lit_plain(p, t, j, seq!['l']);
    lemma_lit_angle(p, t, j, seq!['<', 'R', 'i', 'g', 'h', 't', '>']);
    lemma_lit_plain(p, t, j, seq!['w']);
    lemma_lit_plain(p, t, j, seq!['b']);
}

/// Every alternative but the cancel one decodes the same after `p` as in `p`.
#[verifier::rlimit(60)]
proof fn lemma_kind_same_but_cancel(p: Seq<char>, t: Seq<char>, j: int)
    requires
        is_cancel_token(t),
        0 <= j <= p.len(),
        kind_at(p, j) is None,
    ensures
        kind_at(p + t, j) is Some ==> kind_at(p + t, j).unwrap().1 == ActionKind::CancelPending,
        cancel_end(p + t, j) is Some ==> kind_at(p + t, j) == Some((cancel_end(p + t, j).unwrap() - j, ActionKind::CancelPending)),
{
    lemma_movement_same(p, t, j);
    lemma_lit_plain(p, t, j, seq!['x']);
    lemma_lit_plain(p, t, j, seq!['i']);
    lemma_lit_plain(p, t, j, seq!['a']);
    lemma_lit_plain(p, t, j, seq![':']);
    lemma_lit_plain(p, t, j, seq!['p']);
    lemma_lit_plain(p, t, j, seq!['P']);
    lemma_lit_plain(p, t, j, seq!['.']);
    lemma_lit_plain(p, t, j, seq!['d', 'd']);
    lemma_prefixed_same(p, t, j, 'd');
    lemma_lit_plain(p, t, j, seq!['D']);
    lemma_lit_plain(p, t, j, seq!['c', 'c']);
    lemma_prefixed_same(p, t, j, 'c');
    lemma_lit_plain(p, t, j, seq!['C']);
    lemma_lit_plain(p, t, j, seq!['y', 'y']);
    lemma_lit_plain(p, t, j, seq!['Y']);
    lemma_prefixed_same(p, t, j, 'y');
}

proof fn lemma_cancel_at_end(p: Seq<char>, t: Seq<char>, j: int)
    requires
        is_cancel_token(t),
        0 <= j <= p.len(),
        forall|k: int| 0 <= k && k + 5 <= p.len() ==> !cancel_token_at(p, k),
    ensures
        cancel_end(p + t, j) == Some(p.len() + 5int),
    decreases p.len() - j,
{
    let q = p + t;
    let n = p.len() as int;
    if j < n {
        if j + 5 <= n {
            assert(q.subrange(j, j + 5) =~= p.subrange(j, j + 5));
            assert(!cancel_token_at(p, j));
        } else {
            assert(q.subrange(j, j + 5)[n - j] == q[n]);
            let e = seq!['<', 'E', 's', 'c', '>'];
            let c = seq!['<', 'C', '-', 'c', '>'];
            assert(e[n - j] != '<');
            assert(c[n - j] != '<');
        }
        assert(!cancel_token_at(q, j));
        lemma_cancel_at_end(p, t, j + 1);
    } else {
        assert(q.subrange(n, n + 5) =~= t);
    }
}

/// Input that holds no complete command, followed by a cancel token,
/// decodes to a cancel.
pub proof fn lemma_cancel_completes(p: Seq<char>, t: Seq<char>)
    requires
        parse_spec(p) is None,
        is_cancel_token(t),
    ensures
        parse_spec(p + t) matches Some((_, a)) && a.kind == ActionKind::CancelPending,
{
    let q = p + t;
    let n = p.len() as int;
    lemma_digit_run_extend(p, t, 0);
    lemma_digit_run_bound(p, 0);
    let d = digit_run(p, 0) as int;
    assert(q.subrange(n, n + 5) =~= t);
    assert(cancel_token_at(q, n));
    lemma_cancel_found(q, d, n);
    lemma_kind_same_but_cancel(p, t, d);
}

/// Where input with no complete command holds no cancel token of its own,
/// the cancel token after it makes a cancel that takes all of the input,
/// with the token.
pub proof fn lemma_cancel_takes_all(p: Seq<char>, t: Seq<char>)
    requires
        parse_spec(p) is None,
        is_cancel_token(t),
        forall|k: int| 0 <= k && k + 5 <= p.len() ==> !cancel_token_at(p, k),
    ensures
        parse_spec(p + t) == Some(((p + t).len() as int, Action { count: count_of(p.subrange(0, digit_run(p, 0) as int)), kind: ActionKind::CancelPending })),
{
    let q = p + t;
    lemma_digit_run_extend(p, t, 0);
    lemma_digit_run_bound(p, 0);
    let d = digit_run(p, 0) as int;
    lemma_cancel_at_end(p, t, d);
    lemma_kind_same_but_cancel(p, t, d);
    assert(q.subrange(0, d) =~= p.subrange(0, d));
}

} // verus!
