use vstd::prelude::*;

verus! {

/// The text being edited, as its lines (without line breaks). A buffer always
/// holds at least one line; an empty text is one empty line.
#[derive(Debug)]
pub struct Buffer {
    lines: Vec<Vec<char>>,
}

/// The rows of a vector of lines, as sequences of characters.
pub open spec fn view_lines(ls: Seq<Vec<char>>) -> Seq<Seq<char>> {
    Seq::new(ls.len(), |i: int| ls[i]@)
}

/// Whitespace that separates words; a line break counts as one.
pub open spec fn is_blank(c: char) -> bool {
    c == ' ' || c == '\t' || c == '\n'
}

/// The first position at or after `i` that ends the word under `i`.
pub open spec fn skip_word(l: Seq<char>, i: int) -> int
    decreases l.len() - i,
{
    if 0 <= i < l.len() && !is_blank(l[i]) {
        skip_word(l, i + 1)
    } else {
        i
    }
}

/// The first position at or after `i` that is not blank.
pub open spec fn skip_blank(l: Seq<char>, i: int) -> int
    decreases l.len() - i,
{
    if 0 <= i < l.len() && is_blank(l[i]) {
        skip_blank(l, i + 1)
    } else {
        i
    }
}

/// The last position at or before `i` with no blank just before it.
pub open spec fn skip_blank_back(l: Seq<char>, i: int) -> int
    decreases i,
{
    if 0 < i <= l.len() && is_blank(l[i - 1]) {
        skip_blank_back(l, i - 1)
    } else {
        i
    }
}

/// The start of the word that ends at `i`.
pub open spec fn skip_word_back(l: Seq<char>, i: int) -> int
    decreases i,
{
    if 0 < i <= l.len() && !is_blank(l[i - 1]) {
        skip_word_back(l, i - 1)
    } else {
        i
    }
}

/// Where one forward-word step from `i` lands: past the word, then past the
/// blanks after it.
pub open spec fn word_forward(l: Seq<char>, i: int) -> int {
    skip_blank(l, skip_word(l, i))
}

/// Where one back-word step from `i` lands: back over blanks, then to the
/// start of the word before them.
pub open spec fn word_back(l: Seq<char>, i: int) -> int {
    skip_word_back(l, skip_blank_back(l, i))
}

/// `n` forward-word steps.
pub open spec fn word_forward_n(l: Seq<char>, i: int, n: nat) -> int
    decreases n,
{
    if n == 0 {
        i
    } else {
        word_forward(l, word_forward_n(l, i, (n - 1) as nat))
    }
}

/// `n` back-word steps.
pub open spec fn word_back_n(l: Seq<char>, i: int, n: nat) -> int
    decreases n,
{
    if n == 0 {
        i
    } else {
        word_back(l, word_back_n(l, i, (n - 1) as nat))
    }
}

/// The offset in the whole text of the first character of row `row`: each
/// earlier line counts its characters and its line break.
pub open spec fn line_start(ls: Seq<Seq<char>>, row: int) -> int
    decreases row,
{
    if row <= 0 {
        0
    } else {
        line_start(ls, row - 1) + ls[row - 1].len() + 1
    }
}

/// The lines with `content` put in before row `row`.
pub open spec fn insert_rows(ls: Seq<Seq<char>>, row: int, content: Seq<Seq<char>>) -> Seq<Seq<char>> {
    ls.subrange(0, row) + content + ls.subrange(row, ls.len() as int)
}

/// The lines with rows `a..b` taken out; one empty line where none would be left.
pub open spec fn remove_rows(ls: Seq<Seq<char>>, a: int, b: int) -> Seq<Seq<char>> {
    let rest = ls.subrange(0, a) + ls.subrange(b, ls.len() as int);
    if rest.len() == 0 {
        seq![Seq::<char>::empty()]
    } else {
        rest
    }
}

/// The line with `content` put in at column `col`.
pub open spec fn insert_at(l: Seq<char>, col: int, content: Seq<char>) -> Seq<char> {
    l.subrange(0, col) + content + l.subrange(col, l.len() as int)
}

/// The line with columns `a..b` taken out.
pub open spec fn remove_at(l: Seq<char>, a: int, b: int) -> Seq<char> {
    l.subrange(0, a) + l.subrange(b, l.len() as int)
}

/// `s` written `n` times in a row.
pub open spec fn repeat<T>(s: Seq<T>, n: nat) -> Seq<T>
    decreases n,
{
    if n == 0 {
        Seq::empty()
    } else {
        repeat(s, (n - 1) as nat) + s
    }
}

/// A copy of `l[a..b]`.
pub fn copy_chars(l: &Vec<char>, a: usize, b: usize) -> (r: Vec<char>)
    requires
        a <= b <= l@.len(),
    ensures
        r@ == l@.subrange(a as int, b as int),
{
    let mut r: Vec<char> = Vec::new();
    let mut k: usize = a;
    while k < b
        invariant
            a <= k <= b <= l@.len(),
            r@ == l@.subrange(a as int, k as int),
        decreases b - k,
    {
        r.push(l[k]);
        k = k + 1;
        assert(r@ =~= l@.subrange(a as int, k as int));
    }
    r
}

/// Appends `src[a..b]` to `dst`.
pub fn append_chars(dst: &mut Vec<char>, src: &Vec<char>, a: usize, b: usize)
    requires
        a <= b <= src@.len(),
    ensures
        final(dst)@ == old(dst)@ + src@.subrange(a as int, b as int),
{
    let mut k: usize = a;
    while k < b
        invariant
            a <= k <= b <= src@.len(),
            dst@ == old(dst)@ + src@.subrange(a as int, k as int),
        decreases b - k,
    {
        dst.push(src[k]);
        k = k + 1;
        assert(dst@ =~= old(dst)@ + src@.subrange(a as int, k as int));
    }
}

/// Appends copies of the rows `src[a..b]` to `dst`.
pub fn append_rows(dst: &mut Vec<Vec<char>>, src: &Vec<Vec<char>>, a: usize, b: usize)
    requires
        a <= b <= src@.len(),
    ensures
        view_lines(final(dst)@) == view_lines(old(dst)@) + view_lines(src@).subrange(a as int, b as int),
{
    let mut k: usize = a;
    while k < b
        invariant
            a <= k <= b <= src@.len(),
            view_lines(dst@) == view_lines(old(dst)@) + view_lines(src@).subrange(a as int, k as int),
        decreases b - k,
    {
        let row = copy_chars(&src[k], 0, src[k].len());
        assert(row@ =~= src@[k as int]@);
        let ghost prev = dst@;
        dst.push(row);
        assert(view_lines(dst@) =~= view_lines(prev).push(src@[k as int]@));
        k = k + 1;
        assert(view_lines(dst@) =~= view_lines(old(dst)@) + view_lines(src@).subrange(a as int, k as int));
    }
}

proof fn lemma_skip_bounds(l: Seq<char>, i: int)
    requires
        0 <= i <= l.len(),
    ensures
        i <= skip_word(l, i) <= l.len(),
        i <= skip_blank(l, i) <= l.len(),
        0 <= skip_blank_back(l, i) <= i,
        0 <= skip_word_back(l, i) <= i,
        i <= word_forward(l, i) <= l.len(),
        0 <= word_back(l, i) <= i,
        i < l.len() ==> i < word_forward(l, i),
        0 < i ==> word_back(l, i) < i,
{
    if 0 < i {
        lemma_back_bounds(l, i - 1);
        lemma_word_back_bound(l, i - 1);
    }
    if i < l.len() {
        lemma_skip_word_bound(l, i + 1);
        lemma_skip_blank_bound(l, i + 1);
    }
    lemma_skip_blank_bound(l, i);
    lemma_word_back_bound(l, i);
    lemma_skip_word_bound(l, i);
    lemma_skip_blank_bound(l, skip_word(l, i));
    lemma_back_bounds(l, i);
    lemma_word_back_bound(l, skip_blank_back(l, i));
}

proof fn lemma_skip_word_bound(l: Seq<char>, i: int)
    requires
        0 <= i <= l.len(),
    ensures
        i <= skip_word(l, i) <= l.len(),
    decreases l.len() - i,
{
    if i < l.len() {
        lemma_skip_word_bound(l, i + 1);
    }
}

proof fn lemma_skip_blank_bound(l: Seq<char>, i: int)
    requires
        0 <= i <= l.len(),
    ensures
        i <= skip_blank(l, i) <= l.len(),
    decreases l.len() - i,
{
    if i < l.len() {
        lemma_skip_blank_bound(l, i + 1);
    }
}

proof fn lemma_back_bounds(l: Seq<char>, i: int)
    requires
        0 <= i <= l.len(),
    ensures
        0 <= skip_blank_back(l, i) <= i,
    decreases i,
{
    if i > 0 {
        lemma_back_bounds(l, i - 1);
    }
}

proof fn lemma_word_back_bound(l: Seq<char>, i: int)
    requires
        0 <= i <= l.len(),
    ensures
        0 <= skip_word_back(l, i) <= i,
    decreases i,
{
    if i > 0 {
        lemma_word_back_bound(l, i - 1);
    }
}

pub proof fn lemma_forward_n_bounds(l: Seq<char>, i: int, n: nat)
    requires
        0 <= i <= l.len(),
    ensures
        i <= word_forward_n(l, i, n) <= l.len(),
    decreases n,
{
    if n > 0 {
        lemma_forward_n_bounds(l, i, (n - 1) as nat);
        lemma_skip_word_bound(l, word_forward_n(l, i, (n - 1) as nat));
        lemma_skip_blank_bound(l, skip_word(l, word_forward_n(l, i, (n - 1) as nat)));
    }
}

pub proof fn lemma_back_n_bounds(l: Seq<char>, i: int, n: nat)
    requires
        0 <= i <= l.len(),
    ensures
        0 <= word_back_n(l, i, n) <= i,
    decreases n,
{
    if n > 0 {
        lemma_back_n_bounds(l, i, (n - 1) as nat);
        lemma_back_bounds(l, word_back_n(l, i, (n - 1) as nat));
        lemma_word_back_bound(l, skip_blank_back(l, word_back_n(l, i, (n - 1) as nat)));
    }
}

/// Once a run of steps reaches the end of the line (or its start, going
/// back), further steps stay there.
proof fn lemma_steps_settle(l: Seq<char>, i: int, k: nat, n: nat)
    requires
        k <= n,
    ensures
        word_forward_n(l, i, k) == l.len() ==> word_forward_n(l, i, n) == l.len(),
        word_back_n(l, i, k) == 0 ==> word_back_n(l, i, n) == 0,
    decreases n - k,
{
    if k < n {
        lemma_steps_settle(l, i, k, (n - 1) as nat);
    }
}

/// One forward-word step from `i`.
fn step_forward(l: &Vec<char>, i: usize) -> (r: usize)
    requires
        i <= l@.len(),
    ensures
        r == word_forward(l@, i as int),
{
    let mut j: usize = i;
    while j < l.len() && !(l[j] == ' ' || l[j] == '\t' || l[j] == '\n')
        invariant
            i <= j <= l@.len(),
            skip_word(l@, i as int) == skip_word(l@, j as int),
        decreases l@.len() - j,
    {
        j = j + 1;
    }
    let ghost mid = j;
    while j < l.len() && (l[j] == ' ' || l[j] == '\t' || l[j] == '\n')
        invariant
            mid <= j <= l@.len(),
            skip_word(l@, i as int) == mid,
            skip_blank(l@, mid as int) == skip_blank(l@, j as int),
        decreases l@.len() - j,
    {
        j = j + 1;
    }
    j
}

/// One back-word step from `i`.
fn step_back(l: &Vec<char>, i: usize) -> (r: usize)
    requires
        i <= l@.len(),
    ensures
        r == word_back(l@, i as int),
{
    let mut j: usize = i;
    while j > 0 && (l[j - 1] == ' ' || l[j - 1] == '\t' || l[j - 1] == '\n')
        invariant
            j <= i <= l@.len(),
            skip_blank_back(l@, i as int) == skip_blank_back(l@, j as int),
        decreases j,
    {
        j = j - 1;
    }
    let ghost mid = j;
    while j > 0 && !(l[j - 1] == ' ' || l[j - 1] == '\t' || l[j - 1] == '\n')
        invariant
            j <= mid <= i <= l@.len(),
            skip_blank_back(l@, i as int) == mid,
            skip_word_back(l@, mid as int) == skip_word_back(l@, j as int),
        decreases j,
    {
        j = j - 1;
    }
    j
}

/// Where `n` forward-word steps from `i` land.
pub fn forward_words(l: &Vec<char>, i: usize, n: usize) -> (r: usize)
    requires
        i <= l@.len(),
    ensures
        r == word_forward_n(l@, i as int, n as nat),
        i <= r <= l@.len(),
        n > 0 && i < l@.len() ==> i < r,
{
    let mut pos: usize = i;
    let mut k: usize = 0;
    while k < n && pos < l.len()
        invariant
            i <= l@.len(),
            k <= n,
            pos == word_forward_n(l@, i as int, k as nat),
            i <= pos <= l@.len(),
            k > 0 && i < l@.len() ==> i < pos,
        decreases n - k,
    {
        proof {
            lemma_skip_bounds(l@, pos as int);
        }
        pos = step_forward(l, pos);
        k = k + 1;
    }
    proof {
        lemma_steps_settle(l@, i as int, k as nat, n as nat);
        lemma_forward_n_bounds(l@, i as int, n as nat);
    }
    pos
}

/// Where `n` back-word steps from `i` land.
pub fn back_words(l: &Vec<char>, i: usize, n: usize) -> (r: usize)
    requires
        i <= l@.len(),
    ensures
        r == word_back_n(l@, i as int, n as nat),
        r <= i,
        n > 0 && i > 0 ==> r < i,
{
    let mut pos: usize = i;
    let mut k: usize = 0;
    while k < n && pos > 0
        invariant
            i <= l@.len(),
            k <= n,
            pos == word_back_n(l@, i as int, k as nat),
            pos <= i,
            k > 0 && i > 0 ==> pos < i,
        decreases n - k,
    {
        proof {
            lemma_skip_bounds(l@, pos as int);
        }
        pos = step_back(l, pos);
        k = k + 1;
    }
    proof {
        lemma_steps_settle(l@, i as int, k as nat, n as nat);
        lemma_back_n_bounds(l@, i as int, n as nat);
    }
    pos
}

/// The whole text: the lines joined by line breaks.
pub open spec fn join(ls: Seq<Seq<char>>) -> Seq<char>
    decreases ls.len(),
{
    if ls.len() == 0 {
        Seq::empty()
    } else if ls.len() == 1 {
        ls[0]
    } else {
        join(ls.drop_last()) + seq!['\n'] + ls.last()
    }
}

impl View for Buffer {
    type V = Seq<Seq<char>>;

    closed spec fn view(&self) -> Seq<Seq<char>> {
        view_lines(self.lines@)
    }
}

impl Buffer {
    /// A buffer always holds a line.
    pub open spec fn wf(&self) -> bool {
        self@.len() >= 1
    }

    /// A buffer of one empty line.
    pub fn new() -> (r: Buffer)
        ensures
            r@ == seq![Seq::<char>::empty()],
    {
        let mut lines: Vec<Vec<char>> = Vec::new();
        lines.push(Vec::new());
        let r = Buffer { lines };
        assert(r@ =~= seq![Seq::<char>::empty()]);
        r
    }

    /// A buffer of the given lines; one empty line where none is given.
    pub fn from_lines(lines: Vec<Vec<char>>) -> (r: Buffer)
        ensures
            lines@.len() == 0 ==> r@ == seq![Seq::<char>::empty()],
            lines@.len() > 0 ==> r@ == view_lines(lines@),
            r.wf(),
    {
        if lines.len() == 0 {
            Buffer::new()
        } else {
            let r = Buffer { lines };
            r
        }
    }

    /// The lines, without line breaks.
    pub fn lines(&self) -> (r: &Vec<Vec<char>>)
        ensures
            view_lines(r@) == self@,
    {
        &self.lines
    }

    pub fn line_count(&self) -> (r: usize)
        ensures
            r == self@.len(),
    {
        self.lines.len()
    }

    /// How many characters row `row` holds.
    pub fn row_len(&self, row: usize) -> (r: usize)
        requires
            row < self@.len(),
        ensures
            r == self@[row as int].len(),
    {
        self.lines[row].len()
    }

    /// A copy of row `row`.
    pub fn row(&self, row: usize) -> (r: Vec<char>)
        requires
            row < self@.len(),
        ensures
            r@ == self@[row as int],
    {
        copy_chars(&self.lines[row], 0, self.lines[row].len())
    }

    /// The whole text, lines joined by line breaks.
    pub fn text(&self) -> (r: Vec<char>)
        ensures
            r@ == join(self@),
    {
        let mut r: Vec<char> = Vec::new();
        let mut k: usize = 0;
        while k < self.lines.len()
            invariant
                k <= self@.len(),
                r@ == join(self@.subrange(0, k as int)),
            decreases self@.len() - k,
        {
            let ghost before = r@;
            if k > 0 {
                r.push('\n');
            }
            append_chars(&mut r, &self.lines[k], 0, self.lines[k].len());
            proof {
                let s = self@.subrange(0, k + 1);
                assert(s.drop_last() =~= self@.subrange(0, k as int));
                assert(self.lines@[k as int]@.subrange(0, self.lines@[k as int]@.len() as int) =~= s.last());
                if k == 0 {
                    assert(r@ =~= join(s));
                } else {
                    assert(r@ =~= join(s));
                }
            }
            k = k + 1;
        }
        assert(self@.subrange(0, self@.len() as int) =~= self@);
        r
    }

    /// The offset in the whole text of column `col` of row `row`, or the
    /// largest `usize` where that does not fit.
    pub fn get_offset_by_cursor(&self, col: usize, row: usize) -> (r: usize)
        requires
            row < self@.len(),
        ensures
            r == if line_start(self@, row as int) + col <= usize::MAX {
                (line_start(self@, row as int) + col) as usize
            } else {
                usize::MAX
            },
    {
        let mut acc: usize = 0;
        let mut full = false;
        let mut k: usize = 0;
        while k < row
            invariant
                k <= row < self@.len(),
                !full ==> acc == line_start(self@, k as int),
                full ==> line_start(self@, k as int) > usize::MAX,
            decreases row - k,
        {
            let n = self.lines[k].len();
            if !full {
                if acc > usize::MAX - n || acc + n == usize::MAX {
                    full = true;
                } else {
                    acc = acc + n + 1;
                }
            }
            k = k + 1;
        }
        if full || acc > usize::MAX - col {
            usize::MAX
        } else {
            acc + col
        }
    }

    /// Columns `col..col + count` of row `row`, cut at the row's end.
    pub fn subseq_chars(&self, col: usize, row: usize, count: usize) -> (r: Vec<char>)
        requires
            row < self@.len(),
            col <= self@[row as int].len(),
        ensures
            r@ == self@[row as int].subrange(col as int, min_end(col as int, count as int, self@[row as int].len() as int)),
    {
        let len = self.lines[row].len();
        let end = if count > len - col { len } else { col + count };
        copy_chars(&self.lines[row], col, end)
    }

    /// Rows `row..row + count`, cut at the last row.
    pub fn subseq_lines(&self, row: usize, count: usize) -> (r: Vec<Vec<char>>)
        requires
            row <= self@.len(),
        ensures
            view_lines(r@) == self@.subrange(row as int, min_end(row as int, count as int, self@.len() as int)),
    {
        let len = self.lines.len();
        let end = if count > len - row { len } else { row + count };
        let mut r: Vec<Vec<char>> = Vec::new();
        append_rows(&mut r, &self.lines, row, end);
        assert(view_lines(r@) =~= self@.subrange(row as int, end as int));
        r
    }
}


impl Buffer {
    /// Takes out columns `col..col + count` of row `row` (cut at the row's
    /// end) and returns them.
    pub fn remove_chars(&mut self, col: usize, row: usize, count: usize) -> (r: Vec<char>)
        requires
            row < old(self)@.len(),
            col <= old(self)@[row as int].len(),
        ensures
            ({
                let l = old(self)@[row as int];
                let e = min_end(col as int, count as int, l.len() as int);
                &&& r@ == l.subrange(col as int, e)
                &&& final(self)@ == old(self)@.update(row as int, remove_at(l, col as int, e))
            }),
    {
        let len = self.lines[row].len();
        let end = if count > len - col { len } else { col + count };
        let removed = copy_chars(&self.lines[row], col, end);
        let mut kept = copy_chars(&self.lines[row], 0, col);
        append_chars(&mut kept, &self.lines[row], end, len);
        let ghost before = self.lines@;
        self.lines.set(row, kept);
        assert(self@ =~= view_lines(before).update(row as int, remove_at(view_lines(before)[row as int], col as int, end as int)));
        removed
    }

    /// Puts `content` in at column `col` of row `row`.
    pub fn insert_chars(&mut self, col: usize, row: usize, content: &Vec<char>)
        requires
            row < old(self)@.len(),
            col <= old(self)@[row as int].len(),
        ensures
            final(self)@ == old(self)@.update(row as int, insert_at(old(self)@[row as int], col as int, content@)),
    {
        let len = self.lines[row].len();
        let mut line = copy_chars(&self.lines[row], 0, col);
        append_chars(&mut line, content, 0, content.len());
        append_chars(&mut line, &self.lines[row], col, len);
        let ghost before = self.lines@;
        self.lines.set(row, line);
        assert(content@.subrange(0, content@.len() as int) =~= content@);
        assert(self@ =~= view_lines(before).update(row as int, insert_at(view_lines(before)[row as int], col as int, content@)));
    }

    /// Puts the character `c` in at column `col` of row `row`.
    pub fn insert_char(&mut self, col: usize, row: usize, c: char)
        requires
            row < old(self)@.len(),
            col <= old(self)@[row as int].len(),
        ensures
            final(self)@ == old(self)@.update(row as int, insert_at(old(self)@[row as int], col as int, seq![c])),
    {
        let mut content: Vec<char> = Vec::new();
        content.push(c);
        assert(content@ =~= seq![c]);
        self.insert_chars(col, row, &content);
    }

    /// Breaks row `row` in two at column `col`.
    pub fn split_line(&mut self, col: usize, row: usize)
        requires
            row < old(self)@.len(),
            col <= old(self)@[row as int].len(),
        ensures
            final(self)@ == old(self)@.subrange(0, row as int) + seq![
                old(self)@[row as int].subrange(0, col as int),
                old(self)@[row as int].subrange(col as int, old(self)@[row as int].len() as int),
            ] + old(self)@.subrange(row + 1, old(self)@.len() as int),
    {
        let len = self.lines[row].len();
        let count = self.lines.len();
        let head = copy_chars(&self.lines[row], 0, col);
        let tail = copy_chars(&self.lines[row], col, len);
        let mut lines: Vec<Vec<char>> = Vec::new();
        append_rows(&mut lines, &self.lines, 0, row);
        let ghost a = lines@;
        lines.push(head);
        let ghost b = lines@;
        lines.push(tail);
        let ghost c = lines@;
        append_rows(&mut lines, &self.lines, row + 1, count);
        assert(view_lines(b) =~= view_lines(a).push(head@));
        assert(view_lines(c) =~= view_lines(b).push(tail@));
        let ghost old_view = self@;
        self.lines = lines;
        assert(self@ =~= old_view.subrange(0, row as int) + seq![head@, tail@] + old_view.subrange(row + 1, old_view.len() as int));
    }

    /// Puts the rows of `content` in before row `row`.
    pub fn insert_lines(&mut self, row: usize, content: &Vec<Vec<char>>)
        requires
            row <= old(self)@.len(),
        ensures
            final(self)@ == insert_rows(old(self)@, row as int, view_lines(content@)),
    {
        let count = self.lines.len();
        let mut lines: Vec<Vec<char>> = Vec::new();
        append_rows(&mut lines, &self.lines, 0, row);
        append_rows(&mut lines, content, 0, content.len());
        append_rows(&mut lines, &self.lines, row, count);
        assert(view_lines(content@).subrange(0, content@.len() as int) =~= view_lines(content@));
        self.lines = lines;
    }

    /// Takes out rows `row..row + count` (cut at the last row) and returns
    /// them; one empty line stays where no row would be left.
    pub fn remove_lines(&mut self, row: usize, count: usize) -> (r: Vec<Vec<char>>)
        requires
            row < old(self)@.len(),
        ensures
            ({
                let e = min_end(row as int, count as int, old(self)@.len() as int);
                &&& view_lines(r@) == old(self)@.subrange(row as int, e)
                &&& final(self)@ == remove_rows(old(self)@, row as int, e)
            }),
    {
        let len = self.lines.len();
        let end = if count > len - row { len } else { row + count };
        let removed = self.subseq_lines(row, count);
        let mut lines: Vec<Vec<char>> = Vec::new();
        append_rows(&mut lines, &self.lines, 0, row);
        append_rows(&mut lines, &self.lines, end, len);
        let ghost old_view = self@;
        if lines.len() == 0 {
            lines.push(Vec::new());
            assert(view_lines(lines@) =~= seq![Seq::<char>::empty()]);
        }
        self.lines = lines;
        assert(self@ =~= remove_rows(old_view, row as int, end as int));
        removed
    }
}

/// The lines of a text: it is cut at each line break, which no line keeps.
pub open spec fn split_text(t: Seq<char>) -> Seq<Seq<char>>
    decreases t.len(),
{
    if t.len() == 0 {
        seq![Seq::<char>::empty()]
    } else {
        let ls = split_text(t.drop_last());
        if t.last() == '\n' {
            ls.push(Seq::empty())
        } else {
            ls.update(ls.len() - 1, ls.last().push(t.last()))
        }
    }
}

pub proof fn lemma_split_nonempty(t: Seq<char>)
    ensures
        split_text(t).len() >= 1,
    decreases t.len(),
{
    if t.len() > 0 {
        lemma_split_nonempty(t.drop_last());
    }
}

/// Cutting a text at its line breaks and joining the lines again gives the
/// text back.
pub proof fn lemma_join_split(t: Seq<char>)
    ensures
        join(split_text(t)) == t,
    decreases t.len(),
{
    if t.len() > 0 {
        let u = t.drop_last();
        lemma_join_split(u);
        lemma_split_nonempty(u);
        let ls = split_text(u);
        let c = t.last();
        assert(t =~= u.push(c));
        if c == '\n' {
            let m = ls.push(Seq::<char>::empty());
            assert(m.drop_last() =~= ls);
            assert(join(m) =~= t);
        } else {
            let m = ls.update(ls.len() - 1, ls.last().push(c));
            if ls.len() == 1 {
                assert(join(m) =~= t);
            } else {
                assert(m.drop_last() =~= ls.drop_last());
                assert(join(m) == join(ls.drop_last()) + seq!['\n'] + ls.last().push(c));
                assert(join(ls) == join(ls.drop_last()) + seq!['\n'] + ls.last());
                assert(join(m) =~= t);
            }
        }
    }
}

impl Buffer {
    /// The buffer whose lines are those of `text`.
    pub fn from_text(text: &Vec<char>) -> (r: Buffer)
        ensures
            r@ == split_text(text@),
            r.wf(),
    {
        let mut lines: Vec<Vec<char>> = Vec::new();
        lines.push(Vec::new());
        let mut k: usize = 0;
        assert(text@.subrange(0, 0) =~= Seq::<char>::empty());
        assert(view_lines(lines@) =~= seq![Seq::<char>::empty()]);
        while k < text.len()
            invariant
                k <= text@.len(),
                view_lines(lines@) == split_text(text@.subrange(0, k as int)),
                lines@.len() >= 1,
            decreases text@.len() - k,
        {
            let c = text[k];
            let ghost before = view_lines(lines@);
            assert(text@.subrange(0, k + 1).drop_last() =~= text@.subrange(0, k as int));
            if c == '\n' {
                lines.push(Vec::new());
                assert(view_lines(lines@) =~= before.push(Seq::empty()));
            } else {
                let last = lines.len() - 1;
                let mut line = copy_chars(&lines[last], 0, lines[last].len());
                line.push(c);
                assert(line@ =~= before.last().push(c));
                lines.set(last, line);
                assert(view_lines(lines@) =~= before.update(before.len() - 1, before.last().push(c)));
            }
            k = k + 1;
        }
        assert(text@.subrange(0, text@.len() as int) =~= text@);
        Buffer { lines }
    }
}

/// The offset `off` of the whole text falls at `(row, col)`.
pub open spec fn at_offset(ls: Seq<Seq<char>>, off: int, row: int, col: int) -> bool {
    0 <= row < ls.len() && 0 <= col <= ls[row].len() && line_start(ls, row) + col == off
}

proof fn lemma_line_start_prefix(ls: Seq<Seq<char>>, ms: Seq<Seq<char>>, k: int)
    requires
        0 <= k <= ls.len(),
        k <= ms.len(),
        ls.subrange(0, k) == ms.subrange(0, k),
    ensures
        line_start(ls, k) == line_start(ms, k),
    decreases k,
{
    if k > 0 {
        assert(ls.subrange(0, k - 1) =~= ls.subrange(0, k).subrange(0, k - 1));
        assert(ms.subrange(0, k - 1) =~= ms.subrange(0, k).subrange(0, k - 1));
        assert(ls[k - 1] == ls.subrange(0, k)[k - 1]);
        assert(ms[k - 1] == ms.subrange(0, k)[k - 1]);
        lemma_line_start_prefix(ls, ms, k - 1);
    }
}

/// The last row ends where the whole text ends.
pub proof fn lemma_join_len(ls: Seq<Seq<char>>)
    requires
        ls.len() >= 1,
    ensures
        line_start(ls, ls.len() - 1) + ls.last().len() == join(ls).len(),
    decreases ls.len(),
{
    if ls.len() > 1 {
        let m = ls.drop_last();
        lemma_join_len(m);
        assert(ls.subrange(0, m.len() - 1) =~= m.subrange(0, m.len() - 1));
        lemma_line_start_prefix(ls, m, m.len() - 1);
    }
}

/// Each row ends no later than any later row.
proof fn lemma_row_end_mono(ls: Seq<Seq<char>>, k: int, j: int)
    requires
        0 <= k <= j < ls.len(),
    ensures
        line_start(ls, k) + ls[k].len() <= line_start(ls, j) + ls[j].len(),
        k < j ==> line_start(ls, k) + ls[k].len() < line_start(ls, j),
    decreases j - k,
{
    if k < j {
        lemma_row_end_mono(ls, k, j - 1);
    }
}

/// Every position in the text has its offset within the whole text.
pub proof fn lemma_offset_in_text(ls: Seq<Seq<char>>, row: int, col: int)
    requires
        0 <= row < ls.len(),
        0 <= col <= ls[row].len(),
    ensures
        0 <= line_start(ls, row),
        0 <= line_start(ls, row) + col <= join(ls).len(),
{
    lemma_row_end_mono(ls, row, ls.len() - 1);
    lemma_join_len(ls);
    lemma_line_start_nonneg(ls, row);
}

proof fn lemma_line_start_nonneg(ls: Seq<Seq<char>>, row: int)
    ensures
        line_start(ls, row) >= 0,
    decreases row,
{
    if row > 0 {
        lemma_line_start_nonneg(ls, row - 1);
    }
}

impl Buffer {
    /// The offset in the whole text of column `col` of row `row`.
    pub fn offset_of(&self, col: usize, row: usize) -> (r: usize)
        requires
            row < self@.len(),
            col <= self@[row as int].len(),
            join(self@).len() <= usize::MAX,
        ensures
            r == line_start(self@, row as int) + col,
    {
        proof {
            lemma_offset_in_text(self@, row as int, col as int);
        }
        let mut acc: usize = 0;
        let mut k: usize = 0;
        while k < row
            invariant
                k <= row < self@.len(),
                col <= self@[row as int].len(),
                join(self@).len() <= usize::MAX,
                line_start(self@, row as int) + col <= join(self@).len(),
                acc == line_start(self@, k as int),
            decreases row - k,
        {
            proof {
                lemma_row_end_mono(self@, k as int, row as int);
            }
            acc = acc + self.lines[k].len() + 1;
            k = k + 1;
        }
        acc + col
    }

    /// The row and column at which offset `off` of the whole text falls.
    pub fn position_of(&self, off: usize) -> (r: (usize, usize))
        requires
            self.wf(),
            off <= join(self@).len(),
        ensures
            at_offset(self@, off as int, r.0 as int, r.1 as int),
    {
        proof {
            lemma_join_len(self@);
        }
        let count = self.lines.len();
        let mut acc: usize = 0;
        let mut k: usize = 0;
        while k + 1 < count && self.lines[k].len() < off - acc
            invariant
                count == self@.len() >= 1,
                k < count,
                acc == line_start(self@, k as int),
                acc <= off <= join(self@).len(),
                line_start(self@, count - 1) + self@.last().len() == join(self@).len(),
            decreases count - k,
        {
            acc = acc + self.lines[k].len() + 1;
            k = k + 1;
        }
        (k, off - acc)
    }
}

/// `a + n`, cut at `limit`.
pub open spec fn min_end(a: int, n: int, limit: int) -> int {
    if a + n > limit {
        limit
    } else {
        a + n
    }
}

} // verus!
