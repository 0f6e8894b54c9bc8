//! The text and the cursor.
//!
//! Editing is minimal on purpose: arrows, backspace, delete, home and end, page
//! up and down, enter. The remaining key combinations belong to the commands.
//!
//! The text is kept as logical lines; wrapping it to a width is a matter of
//! display. Every operation is stated twice: on the lines, and on the whole text
//! with the cursor as an offset into it.
use crate::text;
use vstd::prelude::*;

verus! {

/// How far page up and page down move while the height of the pane is unknown.
pub const PAGE_FALLBACK: usize = 10;

/// A text as lines, with a cursor before the character `col` of line `row`.
pub struct BufferView {
    pub lines: Seq<Seq<char>>,
    pub row: int,
    pub col: int,
}

impl BufferView {
    /// There is at least one line, no line holds a line break, and the cursor
    /// stands on an existing line, at most just after its last character.
    pub open spec fn valid(self) -> bool {
        &&& 0 <= self.row < self.lines.len()
        &&& 0 <= self.col <= self.lines[self.row].len()
        &&& text::unbroken(self.lines)
    }

    /// The lines joined by line breaks.
    pub open spec fn text(self) -> Seq<char> {
        text::join(self.lines)
    }

    /// How many characters of the text precede the cursor.
    pub open spec fn offset(self) -> int {
        text::terminated(self.lines.take(self.row)).len() + self.col
    }

    /// The line the cursor stands on.
    pub open spec fn line(self) -> Seq<char> {
        self.lines[self.row]
    }

    /// The same lines with the cursor at the nearest position to `(row, col)`:
    /// first the row is brought into range, then the column into that row.
    pub open spec fn placed(self, row: int, col: int) -> BufferView {
        let r = if row >= self.lines.len() {
            self.lines.len() - 1
        } else {
            row
        };
        let len = self.lines[r].len();
        BufferView {
            row: r,
            col: if col > len {
                len as int
            } else {
                col
            },
            ..self
        }
    }

    /// One character back; the end of the previous line at the start of a line.
    pub open spec fn moved_left(self) -> BufferView {
        if self.col > 0 {
            BufferView { col: self.col - 1, ..self }
        } else if self.row > 0 {
            BufferView {
                row: self.row - 1,
                col: self.lines[self.row - 1].len() as int,
                ..self
            }
        } else {
            self
        }
    }

    /// One character on; the start of the next line at the end of a line.
    pub open spec fn moved_right(self) -> BufferView {
        if self.col < self.line().len() {
            BufferView { col: self.col + 1, ..self }
        } else if self.row < self.lines.len() - 1 {
            BufferView { row: self.row + 1, col: 0, ..self }
        } else {
            self
        }
    }

    /// The lines `incoming` inserted at the cursor, which ends up after them.
    /// The first joins the text before the cursor, the last the text after it.
    pub open spec fn inserted(self, incoming: Seq<Seq<char>>) -> BufferView {
        let head = self.line().take(self.col);
        let tail = self.line().skip(self.col);
        let n = incoming.len();
        if n == 1 {
            BufferView {
                lines: self.lines.update(self.row, head + incoming[0] + tail),
                row: self.row,
                col: self.col + incoming[0].len(),
            }
        } else {
            BufferView {
                lines: self.lines.take(self.row).push(head + incoming[0]) + incoming.subrange(
                    1,
                    n - 1,
                ).push(incoming.last() + tail) + self.lines.skip(self.row + 1),
                row: self.row + n - 1,
                col: incoming.last().len() as int,
            }
        }
    }

    /// The character after the cursor removed; at the end of a line, the line
    /// break, which joins the next line to this one.
    pub open spec fn deleted(self) -> BufferView {
        if self.col < self.line().len() {
            BufferView { lines: self.lines.update(self.row, self.line().remove(self.col)), ..self }
        } else if self.row < self.lines.len() - 1 {
            BufferView {
                lines: self.lines.take(self.row).push(self.line() + self.lines[self.row + 1])
                    + self.lines.skip(self.row + 2),
                ..self
            }
        } else {
            self
        }
    }

    /// The character before the cursor removed; nothing at the very start.
    pub open spec fn backspaced(self) -> BufferView {
        if self.row == 0 && self.col == 0 {
            self
        } else {
            self.moved_left().deleted()
        }
    }
}

/// A character that separates words.
pub open spec fn blank(c: char) -> bool {
    c == ' ' || c == '\t' || c == '\n' || c == '\r'
}

/// The start of the run of blanks (or of other characters) that ends at `at`.
pub open spec fn run_start(text: Seq<char>, at: int, blanks: bool) -> int
    decreases at,
{
    if 0 < at <= text.len() && blank(text[at - 1]) == blanks {
        run_start(text, at - 1, blanks)
    } else {
        at
    }
}

/// The end of the run of blanks (or of other characters) that begins at `at`.
pub open spec fn run_end(text: Seq<char>, at: int, blanks: bool) -> int
    decreases text.len() - at,
{
    if 0 <= at < text.len() && blank(text[at]) == blanks {
        run_end(text, at + 1, blanks)
    } else {
        at
    }
}

/// Where the word that precedes `at` begins.
pub open spec fn word_start(text: Seq<char>, at: int) -> int {
    run_start(text, run_start(text, at, true), false)
}

/// Where the word that follows `at` ends.
pub open spec fn word_end(text: Seq<char>, at: int) -> int {
    run_end(text, run_end(text, at, true), false)
}

/// What stands on either side of the cursor in the whole text.
pub proof fn lemma_around_cursor(v: BufferView)
    requires
        v.valid(),
    ensures
        0 <= v.offset() <= v.text().len(),
        v.col < v.line().len() ==> v.offset() < v.text().len() && v.text()[v.offset()]
            == v.line()[v.col],
        v.col == v.line().len() && v.row + 1 < v.lines.len() ==> v.offset() < v.text().len()
            && v.text()[v.offset()] == '\n',
        v.col == v.line().len() && v.row + 1 == v.lines.len() ==> v.offset() == v.text().len(),
        v.col > 0 ==> v.offset() > 0 && v.text()[v.offset() - 1] == v.line()[v.col - 1],
        v.col == 0 && v.row > 0 ==> v.offset() > 0 && v.text()[v.offset() - 1] == '\n',
        v.col == 0 && v.row == 0 ==> v.offset() == 0,
{
    let before = text::terminated(v.lines.take(v.row));
    let after = text::terminated(v.lines.skip(v.row + 1));
    text::lemma_terminated_around(v.lines, v.row);
    assert(text::terminated(v.lines) =~= before + v.line().push('\n') + after);
    if v.row + 1 < v.lines.len() {
        let rest = v.lines.skip(v.row + 1);
        assert(text::terminated(rest).len() > 0) by {
            assert(text::terminated(rest) == text::terminated(rest.drop_last())
                + rest.last().push('\n'));
        }
    } else {
        assert(v.lines.skip(v.row + 1) =~= Seq::empty());
    }
    if v.row > 0 {
        let prior = v.lines.take(v.row);
        assert(text::terminated(prior) == text::terminated(prior.drop_last())
            + prior.last().push('\n'));
        assert(before.last() == '\n');
    } else {
        assert(v.lines.take(0) =~= Seq::empty());
    }
}

/// Where each row begins grows with the row.
proof fn lemma_row_starts(lines: Seq<Seq<char>>, a: int, b: int)
    requires
        0 <= a < b <= lines.len(),
    ensures
        text::terminated(lines.take(a)).len() + lines[a].len() + 1 <= text::terminated(
            lines.take(b),
        ).len(),
    decreases b,
{
    let upto = lines.take(b);
    assert(upto.drop_last() =~= lines.take(b - 1));
    assert(upto.last() == lines[b - 1]);
    assert(text::terminated(upto) == text::terminated(upto.drop_last()) + upto.last().push('\n'));
    if a < b - 1 {
        lemma_row_starts(lines, a, b - 1);
    }
}

/// A buffer is known by its text and the offset of its cursor: no two different
/// states show the same text with the cursor at the same place.
pub proof fn text_and_offset_determine_buffer(a: BufferView, b: BufferView)
    requires
        a.valid(),
        b.valid(),
        a.text() == b.text(),
        a.offset() == b.offset(),
    ensures
        a == b,
{
    text::lemma_split_of_join(a.lines);
    text::lemma_split_of_join(b.lines);
    assert(a.lines == b.lines);
    if a.row < b.row {
        lemma_row_starts(a.lines, a.row, b.row);
    }
    if b.row < a.row {
        lemma_row_starts(a.lines, b.row, a.row);
    }
}

/// The buffer that shows a text with the cursor at an offset.
pub open spec fn buffer_at(text: Seq<char>, offset: int) -> BufferView {
    choose|v: BufferView| v.valid() && #[trigger] v.text() == text && v.offset() == offset
}

/// A buffer is the one that shows its text with its cursor.
pub proof fn lemma_buffer_at(v: BufferView)
    requires
        v.valid(),
    ensures
        buffer_at(v.text(), v.offset()) == v,
{
    let u = buffer_at(v.text(), v.offset());
    assert(u.valid() && u.text() == v.text() && u.offset() == v.offset());
    text_and_offset_determine_buffer(u, v);
}

/// Every offset within the text is reached from anywhere in it.
pub proof fn lemma_reaches(v: BufferView, at: int) -> (w: BufferView)
    requires
        v.valid(),
        0 <= at <= v.text().len(),
    ensures
        w.valid(),
        w.text() == v.text(),
        w.offset() == at,
    decreases
            if at < v.offset() {
                v.offset() - at
            } else {
                at - v.offset()
            },
{
    lemma_around_cursor(v);
    if v.offset() > at {
        left_moves_one_character(v);
        lemma_reaches(v.moved_left(), at)
    } else if v.offset() < at {
        right_moves_one_character(v);
        lemma_reaches(v.moved_right(), at)
    } else {
        v
    }
}

/// The words on either side of an offset lie within the text.
pub proof fn lemma_word_bounds(text: Seq<char>, at: int)
    requires
        0 <= at <= text.len(),
    ensures
        0 <= word_start(text, at) <= at <= word_end(text, at) <= text.len(),
{
    lemma_run_bounds(text, at, true);
    lemma_run_bounds(text, run_start(text, at, true), false);
    lemma_run_bounds(text, run_end(text, at, true), false);
}

proof fn lemma_run_bounds(text: Seq<char>, at: int, blanks: bool)
    requires
        0 <= at <= text.len(),
    ensures
        0 <= run_start(text, at, blanks) <= at <= run_end(text, at, blanks) <= text.len(),
{
    lemma_run_start_prefix(text, text, at, at, blanks);
    lemma_run_end_bounds(text, at, blanks);
}

proof fn lemma_run_end_bounds(text: Seq<char>, at: int, blanks: bool)
    requires
        0 <= at <= text.len(),
    ensures
        at <= run_end(text, at, blanks) <= text.len(),
    decreases text.len() - at,
{
    if at < text.len() && blank(text[at]) == blanks {
        lemma_run_end_bounds(text, at + 1, blanks);
    }
}

/// Moving left goes one character back in the text, unless at its start.
pub proof fn left_moves_one_character(v: BufferView)
    requires
        v.valid(),
    ensures
        v.moved_left().valid(),
        v.moved_left().text() == v.text(),
        v.moved_left().offset() == if v.offset() > 0 {
            v.offset() - 1
        } else {
            0
        },
{
    lemma_around_cursor(v);
    if v.col == 0 && v.row > 0 {
        let prior = v.lines.take(v.row);
        assert(prior.drop_last() =~= v.lines.take(v.row - 1));
        assert(prior.last() == v.lines[v.row - 1]);
        assert(text::terminated(prior) == text::terminated(prior.drop_last())
            + prior.last().push('\n'));
    }
}

/// Moving right goes one character on in the text, unless at its end.
pub proof fn right_moves_one_character(v: BufferView)
    requires
        v.valid(),
    ensures
        v.moved_right().valid(),
        v.moved_right().text() == v.text(),
        v.moved_right().offset() == if v.offset() < v.text().len() {
            v.offset() + 1
        } else {
            v.offset()
        },
{
    lemma_around_cursor(v);
    if v.col == v.line().len() && v.row + 1 < v.lines.len() {
        let upto = v.lines.take(v.row + 1);
        assert(upto.drop_last() =~= v.lines.take(v.row));
        assert(upto.last() == v.line());
        assert(text::terminated(upto) == text::terminated(upto.drop_last())
            + upto.last().push('\n'));
    }
}

/// Left undoes right wherever right can move at all, and the other way round.
pub proof fn left_and_right_are_inverse(v: BufferView)
    requires
        v.valid(),
    ensures
        v.offset() < v.text().len() ==> v.moved_right().moved_left() == v,
        v.offset() > 0 ==> v.moved_left().moved_right() == v,
{
    left_moves_one_character(v);
    right_moves_one_character(v);
    left_moves_one_character(v.moved_right());
    right_moves_one_character(v.moved_left());
    if v.offset() < v.text().len() {
        text_and_offset_determine_buffer(v.moved_right().moved_left(), v);
    }
    if v.offset() > 0 {
        text_and_offset_determine_buffer(v.moved_left().moved_right(), v);
    }
}

/// The lines of an insertion hold no line break.
proof fn lemma_inserted_unbroken(v: BufferView, incoming: Seq<Seq<char>>)
    requires
        v.valid(),
        incoming.len() >= 1,
        text::unbroken(incoming),
    ensures
        v.inserted(incoming).valid(),
{
    let out = v.inserted(incoming);
    let head = v.line().take(v.col);
    let tail = v.line().skip(v.col);
    let n = incoming.len();
    assert(!v.lines[v.row].contains('\n'));
    assert forall|k: int| 0 <= k < head.len() implies head[k] != '\n' by {
        assert(v.line()[k] == head[k]);
    }
    assert forall|k: int| 0 <= k < tail.len() implies tail[k] != '\n' by {
        assert(v.line()[v.col + k] == tail[k]);
    }
    assert forall|i: int, k: int|
        0 <= i < out.lines.len() && 0 <= k < out.lines[i].len() implies #[trigger] out.lines[i][k]
        != '\n' by {
        if n == 1 {
            assert(!incoming[0].contains('\n'));
            if i != v.row {
                assert(!v.lines[i].contains('\n'));
                assert(v.lines[i][k] == out.lines[i][k]);
            } else if head.len() <= k < head.len() + incoming[0].len() {
                assert(incoming[0][k - head.len()] == out.lines[i][k]);
            }
        } else if i < v.row {
            assert(!v.lines[i].contains('\n'));
            assert(v.lines[i][k] == out.lines[i][k]);
        } else if i < v.row + n {
            let j = i - v.row;
            assert(!incoming[j].contains('\n'));
            if j == 0 {
                if k >= head.len() {
                    assert(incoming[0][k - head.len()] == out.lines[i][k]);
                }
            } else if j < n - 1 {
                assert(out.lines[i] == incoming[j]);
                assert(incoming[j][k] == out.lines[i][k]);
            } else if k < incoming[j].len() {
                assert(incoming[j][k] == out.lines[i][k]);
            }
        } else {
            let j = i - n + 1;
            assert(out.lines[i] == v.lines[j]);
            assert(!v.lines[j].contains('\n'));
            assert(v.lines[j][k] == out.lines[i][k]);
        }
    }
    assert forall|i: int| 0 <= i < out.lines.len() implies !(#[trigger] out.lines[i]).contains(
        '\n',
    ) by {
        if out.lines[i].contains('\n') {
            let k = choose|k: int| 0 <= k < out.lines[i].len() && out.lines[i][k] == '\n';
            assert(out.lines[i][k] != '\n');
        }
    }
}

/// An insertion in the middle of what every line followed by a break spells.
proof fn lemma_inserted_terminated(v: BufferView, incoming: Seq<Seq<char>>)
    requires
        v.valid(),
        incoming.len() >= 1,
    ensures
        text::terminated(v.inserted(incoming).lines) == text::terminated(v.lines.take(v.row))
            + v.line().take(v.col) + text::join(incoming) + v.line().skip(v.col).push('\n')
            + text::terminated(v.lines.skip(v.row + 1)),
        v.inserted(incoming).offset() == v.offset() + text::join(incoming).len(),
{
    let out = v.inserted(incoming);
    let head = v.line().take(v.col);
    let tail = v.line().skip(v.col);
    let n = incoming.len();
    let before = text::terminated(v.lines.take(v.row));
    let after = text::terminated(v.lines.skip(v.row + 1));
    let x = text::join(incoming);
    let last = incoming.last();
    assert(text::terminated(incoming) == text::terminated(incoming.drop_last()) + last.push('\n'));
    if n == 1 {
        assert(incoming.drop_last() =~= Seq::empty());
        assert(x =~= incoming[0]);
        text::lemma_terminated_around(out.lines, v.row);
        assert(out.lines.take(v.row) =~= v.lines.take(v.row));
        assert(out.lines.skip(v.row + 1) =~= v.lines.skip(v.row + 1));
        assert((head + x + tail).push('\n') =~= head + x + tail.push('\n'));
        assert(text::terminated(out.lines) =~= before + head + x + tail.push('\n') + after);
    } else {
        let mid = incoming.subrange(1, n - 1);
        let first = incoming[0];
        let m = text::terminated(mid);
        assert(x == first.push('\n') + m + last) by {
            assert(incoming.drop_last() =~= seq![first] + mid);
            text::lemma_terminated_concat(seq![first], mid);
            text::lemma_terminated_one(first);
            assert(x =~= first.push('\n') + m + last);
        }
        let a = v.lines.take(v.row).push(head + first);
        let b = mid.push(last + tail);
        let c = v.lines.skip(v.row + 1);
        text::lemma_terminated_concat(a + b, c);
        text::lemma_terminated_concat(a, b);
        assert(a.drop_last() =~= v.lines.take(v.row));
        assert(b.drop_last() =~= mid);
        assert(text::terminated(a) == before + (head + first).push('\n'));
        assert(text::terminated(b) == m + (last + tail).push('\n'));
        assert(out.lines.take(out.row) =~= a + mid);
        text::lemma_terminated_concat(a, mid);
        assert(before + (head + first).push('\n') + (m + (last + tail).push('\n')) + after
            =~= before + head + (first.push('\n') + m + last) + tail.push('\n') + after);
    }
}

/// An insertion splices the joined lines into the text at the cursor, which
/// ends up just after them.
pub proof fn insertion_splices_text(v: BufferView, incoming: Seq<Seq<char>>)
    requires
        v.valid(),
        incoming.len() >= 1,
        text::unbroken(incoming),
    ensures
        v.inserted(incoming).valid(),
        v.inserted(incoming).text() == v.text().take(v.offset()) + text::join(incoming)
            + v.text().skip(v.offset()),
        v.inserted(incoming).offset() == v.offset() + text::join(incoming).len(),
{
    lemma_inserted_unbroken(v, incoming);
    lemma_around_cursor(v);
    lemma_inserted_terminated(v, incoming);
    let out = v.inserted(incoming);
    let head = v.line().take(v.col);
    let tail = v.line().skip(v.col);
    let before = text::terminated(v.lines.take(v.row));
    let after = text::terminated(v.lines.skip(v.row + 1));
    let x = text::join(incoming);
    text::lemma_terminated_around(v.lines, v.row);
    assert(v.line() =~= head + tail);
    let rest = tail.push('\n') + after;
    assert(text::terminated(v.lines) =~= before + head + rest);
    assert(text::terminated(out.lines) =~= before + head + x + rest);
    assert(v.text().take(v.offset()) =~= before + head);
    assert(v.text().skip(v.offset()) =~= rest.drop_last());
    assert(out.text() =~= before + head + x + rest.drop_last());
}

/// The lines that remain after a deletion hold no line break.
proof fn lemma_deleted_unbroken(v: BufferView)
    requires
        v.valid(),
    ensures
        v.deleted().valid(),
{
    let out = v.deleted();
    assert forall|i: int, k: int|
        0 <= i < out.lines.len() && 0 <= k < out.lines[i].len() implies #[trigger] out.lines[i][k]
        != '\n' by {
        assert(!v.lines[i].contains('\n'));
        if v.col < v.line().len() {
            if i != v.row {
                assert(v.lines[i][k] == out.lines[i][k]);
            } else {
                let j = if k < v.col {
                    k
                } else {
                    k + 1
                };
                assert(v.lines[i][j] == out.lines[i][k]);
            }
        } else if v.row + 1 < v.lines.len() {
            assert(!v.lines[i + 1].contains('\n'));
            if i < v.row {
                assert(v.lines[i][k] == out.lines[i][k]);
            } else if i == v.row {
                if k < v.line().len() {
                    assert(v.lines[i][k] == out.lines[i][k]);
                } else {
                    assert(v.lines[i + 1][k - v.line().len()] == out.lines[i][k]);
                }
            } else {
                assert(out.lines[i] == v.lines[i + 1]);
                assert(v.lines[i + 1][k] == out.lines[i][k]);
            }
        } else {
            assert(v.lines[i][k] == out.lines[i][k]);
        }
    }
    assert forall|i: int| 0 <= i < out.lines.len() implies !(#[trigger] out.lines[i]).contains(
        '\n',
    ) by {
        if out.lines[i].contains('\n') {
            let k = choose|k: int| 0 <= k < out.lines[i].len() && out.lines[i][k] == '\n';
            assert(out.lines[i][k] != '\n');
        }
    }
}

/// Deleting removes the character after the cursor from the text, if there is
/// one, and leaves the cursor where it is.
pub proof fn deletion_removes_next_character(v: BufferView)
    requires
        v.valid(),
    ensures
        v.deleted().valid(),
        v.deleted().text() == if v.offset() < v.text().len() {
            v.text().remove(v.offset())
        } else {
            v.text()
        },
        v.deleted().offset() == v.offset(),
{
    lemma_deleted_unbroken(v);
    lemma_around_cursor(v);
    let out = v.deleted();
    let before = text::terminated(v.lines.take(v.row));
    let after = text::terminated(v.lines.skip(v.row + 1));
    text::lemma_terminated_around(v.lines, v.row);
    assert(out.lines.take(v.row) =~= v.lines.take(v.row));
    if v.col < v.line().len() {
        let kept = v.line().remove(v.col);
        text::lemma_terminated_around(out.lines, v.row);
        assert(out.lines.skip(v.row + 1) =~= v.lines.skip(v.row + 1));
        assert(before + kept.push('\n') + after =~= (before + v.line().push('\n') + after).remove(
            v.offset(),
        ));
        assert(out.text() =~= v.text().remove(v.offset()));
    } else if v.row + 1 < v.lines.len() {
        let rest = v.lines.skip(v.row + 1);
        let next = rest[0];
        text::lemma_terminated_around(rest, 0);
        assert(rest.take(0) =~= Seq::empty());
        assert(rest.skip(1) =~= v.lines.skip(v.row + 2));
        let beyond = text::terminated(v.lines.skip(v.row + 2));
        assert(after =~= next.push('\n') + beyond);
        text::lemma_terminated_around(out.lines, v.row);
        assert(out.lines.skip(v.row + 1) =~= v.lines.skip(v.row + 2));
        assert(before + (v.line() + next).push('\n') + beyond =~= (before + v.line().push('\n') + (
        next.push('\n') + beyond)).remove(v.offset()));
        assert(out.text() =~= v.text().remove(v.offset()));
    }
}

/// Backspace removes the character before the cursor from the text, if there is
/// one, and brings the cursor back over it.
pub proof fn backspace_removes_previous_character(v: BufferView)
    requires
        v.valid(),
    ensures
        v.backspaced().valid(),
        v.backspaced().text() == if v.offset() > 0 {
            v.text().remove(v.offset() - 1)
        } else {
            v.text()
        },
        v.backspaced().offset() == if v.offset() > 0 {
            v.offset() - 1
        } else {
            0
        },
{
    lemma_around_cursor(v);
    left_moves_one_character(v);
    deletion_removes_next_character(v.moved_left());
}

/// A multi-line text with a cursor.
///
/// Vertical moves follow the logical lines, not the wrapped ones.
#[derive(Debug, PartialEq, Eq)]
pub struct Buffer {
    lines: Vec<String>,
    /// Line of the cursor, always an existing one.
    row: usize,
    /// Column of the cursor in characters, at most the length of its line.
    col: usize,
}

impl View for Buffer {
    type V = BufferView;

    closed spec fn view(&self) -> BufferView {
        BufferView {
            lines: text::strings(self.lines@),
            row: self.row as int,
            col: self.col as int,
        }
    }
}

impl Clone for Buffer {
    fn clone(&self) -> (copy: Self)
        ensures
            copy@ == self@,
    {
        let copy = Buffer { lines: self.lines.clone(), row: self.row, col: self.col };
        assert(copy@.lines =~= self@.lines);
        copy
    }
}

impl Default for Buffer {
    /// One empty line, the cursor on it.
    fn default() -> (buf: Self)
        ensures
            buf@.valid(),
            buf@ == (BufferView { lines: seq![Seq::<char>::empty()], row: 0, col: 0 }),
            buf@.text() == Seq::<char>::empty(),
    {
        let mut lines: Vec<String> = Vec::new();
        lines.push(String::new());
        let buf = Buffer { lines, row: 0, col: 0 };
        proof {
            assert(buf@.lines =~= seq![Seq::<char>::empty()]);
            text::lemma_terminated_one(Seq::empty());
            assert(buf@.text() =~= Seq::<char>::empty());
        }
        buf
    }
}

impl Buffer {
    /// A buffer that holds `text`, with the cursor at its end: a scratchpad is
    /// opened to add to it.
    pub fn from_text(text: &str) -> (buf: Self)
        ensures
            buf@.valid(),
            buf@.lines == text::split(text@),
            buf@.text() == text@,
            buf@.offset() == text@.len(),
    {
        let lines = text::split_lines(text);
        let row: usize = lines.len() - 1;
        let col: usize = lines[row].as_str().unicode_len();
        let buf = Buffer { lines, row, col };
        proof {
            lemma_around_cursor(buf@);
        }
        buf
    }

    /// Replaces the text and keeps the cursor as near as possible to where it
    /// stood.
    pub fn replace_preserving_cursor(&mut self, text: &str)
        requires
            old(self)@.valid(),
        ensures
            final(self)@.valid(),
            final(self)@.text() == text@,
            final(self)@ == (BufferView { lines: text::split(text@), ..old(self)@ }).placed(
                old(self)@.row,
                old(self)@.col,
            ),
    {
        self.lines = text::split_lines(text);
        let row = self.row;
        let col = self.col;
        self.place(row, col);
    }

    /// The whole text.
    pub fn text(&self) -> (text: String)
        requires
            self@.valid(),
        ensures
            text@ == self@.text(),
    {
        text::join_lines(self.lines.as_slice())
    }

    /// Whether the text is empty.
    pub fn is_empty(&self) -> (empty: bool)
        requires
            self@.valid(),
        ensures
            empty == (self@.text().len() == 0),
    {
        proof {
            let all = self@.lines;
            text::lemma_terminated_around(all, 0);
            assert(all.take(0) =~= Seq::empty());
            if all.len() == 1 {
                assert(all.skip(1) =~= Seq::empty());
            } else {
                let rest = all.skip(1);
                assert(text::terminated(rest) == text::terminated(rest.drop_last())
                    + rest.last().push('\n'));
            }
            assert(self@.lines[0] == self.lines@[0]@);
        }
        self.lines.len() == 1 && self.lines[0].as_str().unicode_len() == 0
    }

    /// The logical lines.
    pub fn lines(&self) -> (lines: &[String])
        ensures
            text::strings(lines@) == self@.lines,
    {
        self.lines.as_slice()
    }

    /// The position of the cursor: line, then column in characters.
    pub fn cursor(&self) -> (cursor: (usize, usize))
        ensures
            cursor.0 == self@.row,
            cursor.1 == self@.col,
    {
        (self.row, self.col)
    }

    /// Inserts lines at the cursor.
    fn insert_lines(&mut self, incoming: Vec<String>)
        requires
            old(self)@.valid(),
            incoming@.len() >= 1,
        ensures
            final(self)@ == old(self)@.inserted(text::strings(incoming@)),
    {
        let ghost before = self@;
        let ghost ins = text::strings(incoming@);
        let n = incoming.len();
        assert(self@.lines[self.row as int] == self.lines@[self.row as int]@);
        let line = self.lines[self.row].as_str();
        let len = line.unicode_len();
        let mut head: String = line.substring_char(0, self.col).to_owned();
        let tail: String = line.substring_char(self.col, len).to_owned();
        assert(head@ =~= before.line().take(before.col));
        assert(tail@ =~= before.line().skip(before.col));
        head.append(incoming[0].as_str());
        if n == 1 {
            let col = head.as_str().unicode_len();
            head.append(tail.as_str());
            self.lines.set(self.row, head);
            self.col = col;
            assert(self@.lines =~= before.inserted(ins).lines);
        } else {
            let row = self.row;
            assert(row < self.lines.len());
            let ghost first = head@;
            let mut rest = self.lines.split_off(row + 1);
            assert(text::strings(rest@) =~= before.lines.skip(before.row + 1));
            self.lines.truncate(row);
            self.lines.push(head);
            let ghost upto = before.lines.take(before.row).push(first);
            assert(text::strings(self.lines@) =~= upto + ins.subrange(1, 1));
            for i in 1..n - 1
                invariant
                    n == incoming@.len(),
                    n >= 2,
                    ins == text::strings(incoming@),
                    text::strings(self.lines@) == upto + ins.subrange(1, i as int),
            {
                let ghost prior = text::strings(self.lines@);
                self.lines.push(incoming[i].clone());
                proof {
                    assert(text::strings(self.lines@) =~= prior.push(ins[i as int]));
                    assert(ins.subrange(1, i + 1) =~= ins.subrange(1, i as int).push(
                        ins[i as int],
                    ));
                    assert(prior.push(ins[i as int]) =~= upto + ins.subrange(1, i + 1));
                }
            }
            let mut last: String = incoming[n - 1].clone();
            let col = last.as_str().unicode_len();
            last.append(tail.as_str());
            let ghost prior = text::strings(self.lines@);
            let ghost closing = last@;
            self.lines.push(last);
            assert(text::strings(self.lines@) =~= prior.push(closing));
            self.row = self.lines.len() - 1;
            self.col = col;
            self.lines.append(&mut rest);
            assert(self@.lines =~= prior.push(closing) + before.lines.skip(before.row + 1));
            assert(self@.lines =~= before.inserted(ins).lines);
        }
    }

    /// Inserts one character; a line break splits the line.
    pub fn insert_char(&mut self, c: char)
        requires
            old(self)@.valid(),
        ensures
            final(self)@.valid(),
            final(self)@ == old(self)@.inserted(text::split(seq![c])),
            final(self)@.text() == old(self)@.text().insert(old(self)@.offset(), c),
            final(self)@.offset() == old(self)@.offset() + 1,
    {
        if c == '\n' {
            self.insert_newline();
            return ;
        }
        let mut s = String::new();
        s.push(c);
        let mut incoming: Vec<String> = Vec::new();
        incoming.push(s);
        proof {
            lemma_split_char(c);
            assert(text::strings(incoming@) =~= text::split(seq![c]));
            text::lemma_split(seq![c]);
            text::lemma_join_of_split(seq![c]);
            insertion_splices_text(self@, text::split(seq![c]));
            lemma_around_cursor(self@);
            assert(self@.text().take(self@.offset()) + seq![c] + self@.text().skip(self@.offset())
                =~= self@.text().insert(self@.offset(), c));
        }
        self.insert_lines(incoming);
    }

    /// Splits the line at the cursor.
    pub fn insert_newline(&mut self)
        requires
            old(self)@.valid(),
        ensures
            final(self)@.valid(),
            final(self)@ == old(self)@.inserted(text::split(seq!['\n'])),
            final(self)@.text() == old(self)@.text().insert(old(self)@.offset(), '\n'),
            final(self)@.offset() == old(self)@.offset() + 1,
            final(self)@.row == old(self)@.row + 1,
            final(self)@.col == 0,
    {
        let mut incoming: Vec<String> = Vec::new();
        incoming.push(String::new());
        incoming.push(String::new());
        proof {
            let c = '\n';
            lemma_split_char(c);
            assert(text::strings(incoming@) =~= text::split(seq![c]));
            text::lemma_split(seq![c]);
            text::lemma_join_of_split(seq![c]);
            insertion_splices_text(self@, text::split(seq![c]));
            lemma_around_cursor(self@);
            assert(self@.text().take(self@.offset()) + seq![c] + self@.text().skip(self@.offset())
                =~= self@.text().insert(self@.offset(), c));
        }
        self.insert_lines(incoming);
    }

    /// Inserts a pasted text in one go, its line breaks normalised.
    pub fn insert_str(&mut self, text: &str)
        requires
            old(self)@.valid(),
        ensures
            final(self)@.valid(),
            final(self)@ == old(self)@.inserted(text::split(text::normalised(text@))),
            final(self)@.text() == old(self)@.text().take(old(self)@.offset()) + text::normalised(
                text@,
            ) + old(self)@.text().skip(old(self)@.offset()),
            final(self)@.offset() == old(self)@.offset() + text::normalised(text@).len(),
    {
        let clean = text::normalise_breaks(text);
        let incoming = text::split_lines(clean.as_str());
        proof {
            insertion_splices_text(self@, text::strings(incoming@));
        }
        self.insert_lines(incoming);
    }

    /// Removes the character before the cursor.
    pub fn backspace(&mut self)
        requires
            old(self)@.valid(),
        ensures
            final(self)@.valid(),
            final(self)@ == old(self)@.backspaced(),
            final(self)@.text() == if old(self)@.offset() > 0 {
                old(self)@.text().remove(old(self)@.offset() - 1)
            } else {
                old(self)@.text()
            },
            final(self)@.offset() == if old(self)@.offset() > 0 {
                old(self)@.offset() - 1
            } else {
                0
            },
    {
        proof {
            backspace_removes_previous_character(self@);
        }
        if self.row == 0 && self.col == 0 {
            return ;
        }
        self.left();
        self.delete();
    }

    /// Removes the character after the cursor.
    pub fn delete(&mut self)
        requires
            old(self)@.valid(),
        ensures
            final(self)@.valid(),
            final(self)@ == old(self)@.deleted(),
            final(self)@.text() == if old(self)@.offset() < old(self)@.text().len() {
                old(self)@.text().remove(old(self)@.offset())
            } else {
                old(self)@.text()
            },
            final(self)@.offset() == old(self)@.offset(),
    {
        let ghost before = self@;
        proof {
            deletion_removes_next_character(self@);
            assert(self@.lines[self.row as int] == self.lines@[self.row as int]@);
        }
        let line = self.lines[self.row].as_str();
        let len = line.unicode_len();
        if self.col < len {
            let mut kept: String = line.substring_char(0, self.col).to_owned();
            kept.append(line.substring_char(self.col + 1, len));
            assert(kept@ =~= before.line().remove(before.col));
            self.lines.set(self.row, kept);
            assert(self@.lines =~= before.deleted().lines);
        } else if self.row < self.lines.len() - 1 {
            let mut joined: String = line.to_owned();
            let next = self.lines.remove(self.row + 1);
            assert(next@ == before.lines[before.row + 1]);
            joined.append(next.as_str());
            self.lines.set(self.row, joined);
            assert(self@.lines =~= before.deleted().lines);
        }
    }

    /// Moves one character back.
    pub fn left(&mut self)
        requires
            old(self)@.valid(),
        ensures
            final(self)@.valid(),
            final(self)@ == old(self)@.moved_left(),
            final(self)@.text() == old(self)@.text(),
            final(self)@.offset() == if old(self)@.offset() > 0 {
                old(self)@.offset() - 1
            } else {
                0
            },
    {
        proof {
            left_moves_one_character(self@);
        }
        if self.col > 0 {
            self.col = self.col - 1;
        } else if self.row > 0 {
            self.row = self.row - 1;
            self.col = self.lines[self.row].as_str().unicode_len();
        }
    }

    /// Moves one character on.
    pub fn right(&mut self)
        requires
            old(self)@.valid(),
        ensures
            final(self)@.valid(),
            final(self)@ == old(self)@.moved_right(),
            final(self)@.text() == old(self)@.text(),
            final(self)@.offset() == if old(self)@.offset() < old(self)@.text().len() {
                old(self)@.offset() + 1
            } else {
                old(self)@.offset()
            },
    {
        proof {
            right_moves_one_character(self@);
        }
        assert(self@.lines[self.row as int] == self.lines@[self.row as int]@);
        if self.col < self.lines[self.row].as_str().unicode_len() {
            self.col = self.col + 1;
        } else if self.row < self.lines.len() - 1 {
            self.row = self.row + 1;
            self.col = 0;
        }
    }

    /// Moves `n` lines up, at most to the first.
    pub fn up(&mut self, n: usize)
        requires
            old(self)@.valid(),
        ensures
            final(self)@.valid(),
            final(self)@ == old(self)@.placed(
                if n > old(self)@.row {
                    0
                } else {
                    old(self)@.row - n
                },
                old(self)@.col,
            ),
    {
        let row: usize = self.row.saturating_sub(n);
        let col = self.col;
        self.place(row, col);
    }

    /// Moves `n` lines down, at most to the last.
    pub fn down(&mut self, n: usize)
        requires
            old(self)@.valid(),
        ensures
            final(self)@.valid(),
            final(self)@ == old(self)@.placed(old(self)@.row + n, old(self)@.col),
    {
        let last: usize = self.lines.len() - 1;
        let row: usize = if n > last - self.row {
            last
        } else {
            self.row + n
        };
        let col = self.col;
        self.place(row, col);
    }

    /// Moves to the start of the line.
    pub fn home(&mut self)
        requires
            old(self)@.valid(),
        ensures
            final(self)@.valid(),
            final(self)@ == (BufferView { col: 0, ..old(self)@ }),
    {
        self.col = 0;
    }

    /// Moves to the end of the line.
    pub fn end(&mut self)
        requires
            old(self)@.valid(),
        ensures
            final(self)@.valid(),
            final(self)@ == (BufferView { col: old(self)@.line().len() as int, ..old(self)@ }),
    {
        self.col = self.lines[self.row].as_str().unicode_len();
    }

    /// Moves before the first character of the text.
    pub fn cursor_to_start(&mut self)
        requires
            old(self)@.valid(),
        ensures
            final(self)@.valid(),
            final(self)@ == (BufferView { row: 0, col: 0, ..old(self)@ }),
            final(self)@.offset() == 0,
    {
        self.row = 0;
        self.col = 0;
        proof {
            lemma_around_cursor(self@);
        }
    }

    /// Moves after the last character of the text.
    pub fn cursor_to_end(&mut self)
        requires
            old(self)@.valid(),
        ensures
            final(self)@.valid(),
            final(self)@ == (BufferView {
                row: old(self)@.lines.len() - 1,
                col: old(self)@.lines.last().len() as int,
                ..old(self)@
            }),
            final(self)@.offset() == old(self)@.text().len(),
    {
        self.row = self.lines.len() - 1;
        self.col = self.lines[self.row].as_str().unicode_len();
        proof {
            lemma_around_cursor(self@);
        }
    }

    /// Moves to a line and column, brought into range where they lie outside.
    pub fn set_cursor(&mut self, row: usize, col: usize)
        requires
            old(self)@.valid(),
        ensures
            final(self)@.valid(),
            final(self)@ == old(self)@.placed(row as int, col as int),
    {
        self.place(row, col);
    }

    fn place(&mut self, row: usize, col: usize)
        requires
            old(self)@.lines.len() >= 1,
            text::unbroken(old(self)@.lines),
        ensures
            final(self)@.valid(),
            final(self)@ == old(self)@.placed(row as int, col as int),
    {
        self.row = if row >= self.lines.len() {
            self.lines.len() - 1
        } else {
            row
        };
        assert(self@.lines[self.row as int] == self.lines@[self.row as int]@);
        let len = self.lines[self.row].as_str().unicode_len();
        self.col = if col > len {
            len
        } else {
            col
        };
    }

    /// The character before the cursor, a line break at the start of a line.
    fn char_before(&self) -> (c: Option<char>)
        requires
            self@.valid(),
        ensures
            c == if self@.offset() > 0 {
                Some(self@.text()[self@.offset() - 1])
            } else {
                None
            },
    {
        proof {
            lemma_around_cursor(self@);
            assert(self@.lines[self.row as int] == self.lines@[self.row as int]@);
        }
        if self.col > 0 {
            Some(self.lines[self.row].as_str().get_char(self.col - 1))
        } else if self.row > 0 {
            Some('\n')
        } else {
            None
        }
    }

    /// The character after the cursor, a line break at the end of a line.
    fn char_after(&self) -> (c: Option<char>)
        requires
            self@.valid(),
        ensures
            c == if self@.offset() < self@.text().len() {
                Some(self@.text()[self@.offset()])
            } else {
                None
            },
    {
        proof {
            lemma_around_cursor(self@);
            assert(self@.lines[self.row as int] == self.lines@[self.row as int]@);
        }
        let line = self.lines[self.row].as_str();
        if self.col < line.unicode_len() {
            Some(line.get_char(self.col))
        } else if self.row < self.lines.len() - 1 {
            Some('\n')
        } else {
            None
        }
    }

    /// Moves back over the run of blanks, or of other characters, that ends at
    /// the cursor.
    fn skip_back(&mut self, blanks: bool)
        requires
            old(self)@.valid(),
        ensures
            final(self)@.valid(),
            final(self)@.text() == old(self)@.text(),
            final(self)@.lines == old(self)@.lines,
            final(self)@.offset() == run_start(old(self)@.text(), old(self)@.offset(), blanks),
    {
        proof {
            lemma_around_cursor(self@);
        }
        let mut before = self.char_before();
        while before.is_some()
            invariant
                self@.valid(),
                self@.text() == old(self)@.text(),
                self@.lines == old(self)@.lines,
                0 <= self@.offset() <= self@.text().len(),
                before == if self@.offset() > 0 {
                    Some(self@.text()[self@.offset() - 1])
                } else {
                    None
                },
                run_start(old(self)@.text(), self@.offset(), blanks) == run_start(
                    old(self)@.text(),
                    old(self)@.offset(),
                    blanks,
                ),
            decreases self@.offset(),
        {
            if is_blank(before.unwrap()) != blanks {
                return ;
            }
            self.left();
            before = self.char_before();
        }
    }

    /// Moves on over the run of blanks, or of other characters, that begins at
    /// the cursor.
    fn skip_ahead(&mut self, blanks: bool)
        requires
            old(self)@.valid(),
        ensures
            final(self)@.valid(),
            final(self)@.text() == old(self)@.text(),
            final(self)@.lines == old(self)@.lines,
            final(self)@.offset() == run_end(old(self)@.text(), old(self)@.offset(), blanks),
    {
        proof {
            lemma_around_cursor(self@);
        }
        let mut after = self.char_after();
        while after.is_some()
            invariant
                self@.valid(),
                self@.text() == old(self)@.text(),
                self@.lines == old(self)@.lines,
                0 <= self@.offset() <= self@.text().len(),
                after == if self@.offset() < self@.text().len() {
                    Some(self@.text()[self@.offset()])
                } else {
                    None
                },
                run_end(old(self)@.text(), self@.offset(), blanks) == run_end(
                    old(self)@.text(),
                    old(self)@.offset(),
                    blanks,
                ),
            decreases self@.text().len() - self@.offset(),
        {
            if is_blank(after.unwrap()) != blanks {
                return ;
            }
            self.right();
            after = self.char_after();
        }
    }

    /// Erases the run of blanks, or of other characters, that ends at the cursor.
    fn erase_back(&mut self, blanks: bool)
        requires
            old(self)@.valid(),
        ensures
            final(self)@.valid(),
            final(self)@.offset() == run_start(old(self)@.text(), old(self)@.offset(), blanks),
            0 <= final(self)@.offset() <= old(self)@.offset(),
            final(self)@.text() == old(self)@.text().take(final(self)@.offset())
                + old(self)@.text().skip(old(self)@.offset()),
    {
        proof {
            lemma_around_cursor(self@);
            assert(self@.text() =~= self@.text().take(self@.offset()) + self@.text().skip(
                self@.offset(),
            ));
        }
        let mut before = self.char_before();
        while before.is_some()
            invariant
                self@.valid(),
                0 <= self@.offset() <= old(self)@.offset() <= old(self)@.text().len(),
                self@.text() == old(self)@.text().take(self@.offset()) + old(self)@.text().skip(
                    old(self)@.offset(),
                ),
                before == if self@.offset() > 0 {
                    Some(self@.text()[self@.offset() - 1])
                } else {
                    None
                },
                run_start(old(self)@.text(), self@.offset(), blanks) == run_start(
                    old(self)@.text(),
                    old(self)@.offset(),
                    blanks,
                ),
            decreases self@.offset(),
        {
            if is_blank(before.unwrap()) != blanks {
                return ;
            }
            let ghost at = self@.offset();
            let ghost whole = self@.text();
            self.backspace();
            assert(whole.remove(at - 1) =~= old(self)@.text().take(at - 1) + old(self)@.text().skip(
                old(self)@.offset(),
            ));
            before = self.char_before();
        }
    }

    /// Erases back to the start of the word before the cursor.
    pub fn delete_word_left(&mut self)
        requires
            old(self)@.valid(),
        ensures
            final(self)@.valid(),
            final(self)@.offset() == word_start(old(self)@.text(), old(self)@.offset()),
            0 <= final(self)@.offset() <= old(self)@.offset(),
            final(self)@.text() == old(self)@.text().take(final(self)@.offset())
                + old(self)@.text().skip(old(self)@.offset()),
    {
        let ghost whole = self@.text();
        let ghost start = self@.offset();
        self.erase_back(true);
        let ghost mid = self@.offset();
        proof {
            lemma_around_cursor(old(self)@);
            assert(self@.text().take(mid) =~= whole.take(mid));
            lemma_run_start_prefix(self@.text(), whole, mid, mid, false);
        }
        self.erase_back(false);
        proof {
            let left = whole.take(mid) + whole.skip(start);
            let at = self@.offset();
            assert(left.take(at) + left.skip(mid) =~= whole.take(at) + whole.skip(start));
        }
    }

    /// Moves to the start of the word before the cursor.
    pub fn word_left(&mut self)
        requires
            old(self)@.valid(),
        ensures
            final(self)@.valid(),
            final(self)@.lines == old(self)@.lines,
            final(self)@.text() == old(self)@.text(),
            final(self)@.offset() == word_start(old(self)@.text(), old(self)@.offset()),
    {
        self.skip_back(true);
        self.skip_back(false);
    }

    /// Moves to the end of the word after the cursor.
    pub fn word_right(&mut self)
        requires
            old(self)@.valid(),
        ensures
            final(self)@.valid(),
            final(self)@.lines == old(self)@.lines,
            final(self)@.text() == old(self)@.text(),
            final(self)@.offset() == word_end(old(self)@.text(), old(self)@.offset()),
    {
        self.skip_ahead(true);
        self.skip_ahead(false);
    }
}

/// Where a run begins depends only on the text before it.
proof fn lemma_run_start_prefix(a: Seq<char>, b: Seq<char>, upto: int, at: int, blanks: bool)
    requires
        0 <= at <= upto <= a.len(),
        upto <= b.len(),
        a.take(upto) == b.take(upto),
    ensures
        run_start(a, at, blanks) == run_start(b, at, blanks),
        0 <= run_start(a, at, blanks) <= at,
    decreases at,
{
    if at > 0 {
        assert(a.take(upto)[at - 1] == a[at - 1]);
        assert(b.take(upto)[at - 1] == b[at - 1]);
        lemma_run_start_prefix(a, b, upto, at - 1, blanks);
    }
}

/// Erasing right after typing a character undoes it.
pub proof fn backspace_undoes_typing(v: BufferView, c: char)
    requires
        v.valid(),
    ensures
        v.inserted(text::split(seq![c])).backspaced() == v,
{
    let typed = v.inserted(text::split(seq![c]));
    text::lemma_split(seq![c]);
    text::lemma_join_of_split(seq![c]);
    lemma_around_cursor(v);
    insertion_splices_text(v, text::split(seq![c]));
    backspace_removes_previous_character(typed);
    assert(typed.text().remove(v.offset()) =~= v.text());
    text_and_offset_determine_buffer(typed.backspaced(), v);
}

/// Inserting a text in one go is the same as inserting it in two parts, and so
/// the same as typing it character by character.
pub proof fn pasting_is_typing(v: BufferView, first: Seq<char>, second: Seq<char>)
    requires
        v.valid(),
    ensures
        v.inserted(text::split(first + second)) == v.inserted(text::split(first)).inserted(
            text::split(second),
        ),
{
    let whole = v.inserted(text::split(first + second));
    let part = v.inserted(text::split(first));
    let both = part.inserted(text::split(second));
    text::lemma_split(first);
    text::lemma_split(second);
    text::lemma_split(first + second);
    text::lemma_join_of_split(first);
    text::lemma_join_of_split(second);
    text::lemma_join_of_split(first + second);
    lemma_around_cursor(v);
    insertion_splices_text(v, text::split(first + second));
    insertion_splices_text(v, text::split(first));
    insertion_splices_text(part, text::split(second));
    assert(both.text() =~= whole.text());
    text_and_offset_determine_buffer(whole, both);
}

fn is_blank(c: char) -> (b: bool)
    ensures
        b == blank(c),
{
    c == ' ' || c == '\t' || c == '\n' || c == '\r'
}

/// One character as lines: two empty ones around a line break.
proof fn lemma_split_char(c: char)
    ensures
        text::split(seq![c]) == if c == '\n' {
            seq![Seq::<char>::empty(), Seq::<char>::empty()]
        } else {
            seq![seq![c]]
        },
{
    reveal_with_fuel(text::split, 2);
    assert(seq![c].drop_last() =~= Seq::<char>::empty());
    assert(seq![c].last() == c);
    let empty = seq![Seq::<char>::empty()];
    assert(text::split(Seq::<char>::empty()) == empty);
    if c == '\n' {
        assert(text::split(seq![c]) =~= seq![Seq::<char>::empty(), Seq::<char>::empty()]);
    } else {
        assert(empty.last().push(c) =~= seq![c]);
        assert(text::split(seq![c]) =~= seq![seq![c]]);
    }
}

/// The line of the cursor stands in the text around the cursor.
pub proof fn lemma_line_in_text(v: BufferView)
    requires
        v.valid(),
    ensures
        v.offset() - v.col >= 0,
        v.offset() - v.col + v.line().len() <= v.text().len(),
        forall|i: int|
            v.offset() - v.col <= i < v.offset() - v.col + v.line().len() ==> #[trigger] v.text()[i]
                == v.line()[i - (v.offset() - v.col)],
{
    let before = text::terminated(v.lines.take(v.row));
    let after = text::terminated(v.lines.skip(v.row + 1));
    text::lemma_terminated_around(v.lines, v.row);
    assert(text::terminated(v.lines) =~= before + v.line().push('\n') + after);
}

/// Whether `at` is where the line that holds `from` begins: only a line break or
/// nothing precedes it, and no line break stands between the two.
pub open spec fn begins_line(text: Seq<char>, at: int, from: int) -> bool {
    &&& 0 <= at <= from
    &&& at == 0 || text[at - 1] == '\n'
    &&& forall|i: int| at <= i < from ==> #[trigger] text[i] != '\n'
}

/// Whether `at` is where the line that holds `from` ends: only a line break or
/// nothing follows it, and no line break stands between the two.
pub open spec fn ends_line(text: Seq<char>, at: int, from: int) -> bool {
    &&& from <= at <= text.len()
    &&& at == text.len() || text[at] == '\n'
    &&& forall|i: int| from <= i < at ==> #[trigger] text[i] != '\n'
}

/// The first column is where the line begins in the text, the last one where it
/// ends.
pub proof fn columns_bound_the_line(v: BufferView)
    requires
        v.valid(),
    ensures
        ({
            let first = BufferView { col: 0, ..v };
            let last = BufferView { col: v.line().len() as int, ..v };
            &&& first.valid() && first.text() == v.text()
            &&& last.valid() && last.text() == v.text()
            &&& begins_line(v.text(), first.offset(), v.offset())
            &&& ends_line(v.text(), last.offset(), v.offset())
        }),
{
    let first = BufferView { col: 0, ..v };
    let last = BufferView { col: v.line().len() as int, ..v };
    lemma_line_in_text(v);
    lemma_around_cursor(first);
    lemma_around_cursor(last);
    assert(!v.lines[v.row].contains('\n'));
    assert forall|i: int| first.offset() <= i < last.offset() implies #[trigger] v.text()[i]
        != '\n' by {
        assert(v.text()[i] == v.line()[i - first.offset()]);
        assert(v.lines[v.row].contains(v.line()[i - first.offset()]));
    }
}

/// A position that exists is taken as it is. Any other becomes the nearest: no
/// line is nearer to the one asked for, and in that line no column is.
pub proof fn placing_is_nearest(v: BufferView, row: int, col: int, other_row: int, other_col: int)
    requires
        v.lines.len() > 0,
        row >= 0,
        col >= 0,
        0 <= other_row < v.lines.len(),
        0 <= other_col <= v.lines[v.placed(row, col).row].len(),
    ensures
        ({
            let w = v.placed(row, col);
            &&& w.lines == v.lines
            &&& 0 <= w.row < v.lines.len()
            &&& 0 <= w.col <= v.lines[w.row].len()
            &&& row < v.lines.len() && col <= v.lines[row].len() ==> w.row == row && w.col == col
            &&& distance(w.row, row) <= distance(other_row, row)
            &&& distance(w.col, col) <= distance(other_col, col)
        }),
{
}

/// How far two numbers lie apart.
pub open spec fn distance(a: int, b: int) -> int {
    if a < b {
        b - a
    } else {
        a - b
    }
}

/// Whether `start` is where the word before `at` begins: from `start` on come
/// characters that are not blank, then only blanks up to `at`, and before `start`
/// stands a blank, or nothing.
pub open spec fn begins_word(text: Seq<char>, start: int, at: int) -> bool {
    exists|m: int| #[trigger] word_then_blanks(text, start, m, at)
}

/// Whether a word, bounded on its left, reaches from `start` to `m`, and blanks
/// from there to `at`.
pub open spec fn word_then_blanks(text: Seq<char>, start: int, m: int, at: int) -> bool {
    &&& 0 <= start <= m <= at
    &&& forall|i: int| start <= i < m ==> !blank(#[trigger] text[i])
    &&& forall|i: int| m <= i < at ==> blank(#[trigger] text[i])
    &&& start == 0 || (start < m && blank(text[start - 1]))
}

/// Whether `end` is where the word after `at` ends: from `at` on come only
/// blanks, then characters that are not, up to `end`, and there stands a blank,
/// or nothing.
pub open spec fn ends_word(text: Seq<char>, end: int, at: int) -> bool {
    exists|m: int| #[trigger] blanks_then_word(text, at, m, end)
}

/// Whether blanks reach from `at` to `m`, and a word, bounded on its right, from
/// there to `end`.
pub open spec fn blanks_then_word(text: Seq<char>, at: int, m: int, end: int) -> bool {
    &&& at <= m <= end <= text.len()
    &&& forall|i: int| at <= i < m ==> blank(#[trigger] text[i])
    &&& forall|i: int| m <= i < end ==> !blank(#[trigger] text[i])
    &&& end == text.len() || (m < end && blank(text[end]))
}

proof fn lemma_run_start(text: Seq<char>, at: int, blanks: bool)
    requires
        0 <= at <= text.len(),
    ensures
        0 <= run_start(text, at, blanks) <= at,
        forall|i: int|
            run_start(text, at, blanks) <= i < at ==> blank(#[trigger] text[i]) == blanks,
        run_start(text, at, blanks) == 0 || blank(text[run_start(text, at, blanks) - 1]) != blanks,
    decreases at,
{
    if at > 0 && blank(text[at - 1]) == blanks {
        lemma_run_start(text, at - 1, blanks);
    }
}

proof fn lemma_run_end(text: Seq<char>, at: int, blanks: bool)
    requires
        0 <= at <= text.len(),
    ensures
        at <= run_end(text, at, blanks) <= text.len(),
        forall|i: int|
            at <= i < run_end(text, at, blanks) ==> blank(#[trigger] text[i]) == blanks,
        run_end(text, at, blanks) == text.len() || blank(text[run_end(text, at, blanks)])
            != blanks,
    decreases text.len() - at,
{
    if at < text.len() && blank(text[at]) == blanks {
        lemma_run_end(text, at + 1, blanks);
    }
}

/// The words on either side of an offset begin and end where blanks bound them.
pub proof fn words_are_bounded_by_blanks(text: Seq<char>, at: int)
    requires
        0 <= at <= text.len(),
    ensures
        begins_word(text, word_start(text, at), at),
        ends_word(text, word_end(text, at), at),
{
    let m = run_start(text, at, true);
    lemma_run_start(text, at, true);
    lemma_run_start(text, m, false);
    assert(word_then_blanks(text, word_start(text, at), m, at));
    let k = run_end(text, at, true);
    lemma_run_end(text, at, true);
    lemma_run_end(text, k, false);
    assert(blanks_then_word(text, at, k, word_end(text, at)));
}

/// Blanks are the space, the tabulation and the two characters of line breaks,
/// and nothing else.
pub proof fn only_four_characters_are_blank(c: char)
    ensures
        blank(' ') && blank('\t') && blank('\n') && blank('\r'),
        c != ' ' && c != '\t' && c != '\n' && c != '\r' ==> !blank(c),
{
}

} // verus!
