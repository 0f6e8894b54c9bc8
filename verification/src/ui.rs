//! What the pane shows, and where.
//!
//! The rectangles of the buttons are computed once, here, and handed to the
//! caller, who replays them at the next click: a click never falls on another
//! button than the one that was drawn.
use crate::agents;
use crate::agents::Target;
use crate::app::{Action, Command};
use crate::buffer;
use crate::text;
use crate::width;
use vstd::prelude::*;

verus! {

/// A place on the screen.
#[derive(Debug, Clone, Copy, PartialEq, Eq, Structural)]
pub struct Position {
    pub x: u16,
    pub y: u16,
}

/// A rectangle of the screen.
#[derive(Debug, Clone, Copy, PartialEq, Eq, Structural)]
pub struct Rect {
    pub x: u16,
    pub y: u16,
    pub width: u16,
    pub height: u16,
}

impl Default for Rect {
    /// The empty rectangle at the origin.
    fn default() -> (r: Self)
        ensures
            r == (Rect { x: 0, y: 0, width: 0, height: 0 }),
    {
        Rect { x: 0, y: 0, width: 0, height: 0 }
    }
}

impl Rect {
    /// Whether a place lies inside. The edges stop at the largest coordinate.
    pub open spec fn holds(self, pos: Position) -> bool {
        &&& self.x <= pos.x
        &&& pos.x < self.x + self.width
        &&& pos.x < u16::MAX
        &&& self.y <= pos.y
        &&& pos.y < self.y + self.height
        &&& pos.y < u16::MAX
    }

    /// Whether a place lies inside.
    pub fn contains(&self, pos: Position) -> (inside: bool)
        ensures
            inside == self.holds(pos),
    {
        pos.x >= self.x && pos.x < self.x.saturating_add(self.width) && pos.y >= self.y && pos.y
            < self.y.saturating_add(self.height)
    }
}

/// A visual row: a piece of a logical line, as it is displayed.
#[derive(Debug, Clone, Copy, PartialEq, Eq, Structural)]
pub struct VisualRow {
    /// The logical line it comes from.
    pub row: usize,
    /// The first character displayed, as an index into the logical line.
    pub start: usize,
    /// The first character no longer displayed.
    pub end: usize,
}

/// The columns of each character of each line.
pub open spec fn line_widths(lines: Seq<Seq<char>>) -> Seq<Seq<usize>> {
    lines.map_values(|l: Seq<char>| width::widths(l))
}

/// Where the piece that begins at `start` ends: as far as the columns allow, but
/// at least one character on. A character wider than the pane stands alone.
pub open spec fn piece_end(ws: Seq<usize>, start: int, width: int) -> int {
    let n = width::fit(ws.skip(start), width);
    if n == 0 && start < ws.len() {
        start + 1
    } else {
        start + n
    }
}

/// The pieces of one line, from the character `start` on.
pub open spec fn pieces(ws: Seq<usize>, row: int, start: int, width: int) -> Seq<VisualRow>
    decreases ws.len() - start,
{
    let end = piece_end(ws, start, width);
    let piece = VisualRow { row: row as usize, start: start as usize, end: end as usize };
    if start < end < ws.len() {
        seq![piece] + pieces(ws, row, end, width)
    } else {
        seq![piece]
    }
}

/// The columns text is wrapped to: a pane of no width wraps as one of one column.
pub open spec fn wrap_width(width: int) -> int {
    if width < 1 {
        1
    } else {
        width
    }
}

/// The visual rows of lines whose characters have the given columns.
pub open spec fn wrapped(lines: Seq<Seq<usize>>, width: int) -> Seq<VisualRow>
    decreases lines.len(),
{
    if lines.len() == 0 {
        Seq::empty()
    } else {
        wrapped(lines.drop_last(), width) + pieces(
            lines.last(),
            lines.len() - 1,
            0,
            wrap_width(width),
        )
    }
}

/// A piece ends within its line, after its start unless the line is used up.
pub proof fn lemma_piece_end(ws: Seq<usize>, start: int, width: int)
    requires
        0 <= start <= ws.len(),
        width >= 1,
    ensures
        start <= piece_end(ws, start, width) <= ws.len(),
        start < ws.len() ==> start < piece_end(ws, start, width),
{
    width::fit_is_the_longest_prefix(ws.skip(start), width);
}

/// The pieces of a line from `start` on: each begins where the one before it
/// ends, the last ends with the line, each takes at most `width` columns unless
/// it is a single character, and each but the last has no room for the next
/// character.
pub proof fn pieces_cover_the_line(ws: Seq<usize>, row: int, start: int, width: int)
    requires
        0 <= start <= ws.len() <= usize::MAX,
        0 <= row <= usize::MAX,
        width >= 1,
    ensures
        pieces(ws, row, start, width).len() >= 1,
        pieces(ws, row, start, width)[0].start == start,
        pieces(ws, row, start, width).last().end == ws.len(),
        forall|i: int|
            0 <= i < pieces(ws, row, start, width).len() ==> {
                let p = #[trigger] pieces(ws, row, start, width)[i];
                &&& p.row == row
                &&& start <= p.start <= p.end <= ws.len()
                &&& start < ws.len() ==> p.start < p.end
                &&& width::total(ws.subrange(p.start as int, p.end as int)) <= width || p.end
                    - p.start == 1
                &&& i < pieces(ws, row, start, width).len() - 1 ==> p.end < ws.len()
                    && width::total(ws.subrange(p.start as int, p.end + 1)) > width && p.end
                    == pieces(ws, row, start, width)[i + 1].start
            },
    decreases ws.len() - start,
{
    let all = pieces(ws, row, start, width);
    let end = piece_end(ws, start, width);
    let tail = ws.skip(start);
    lemma_piece_end(ws, start, width);
    width::fit_is_the_longest_prefix(tail, width);
    assert(tail.take(end - start) =~= ws.subrange(start, end));
    if end < ws.len() {
        pieces_cover_the_line(ws, row, end, width);
        let rest = pieces(ws, row, end, width);
        assert(tail.take(end + 1 - start) =~= ws.subrange(start, end + 1));
        assert(width::total(ws.subrange(start, end + 1)) > width) by {
            if width::fit(tail, width) == 0 {
                width::lemma_total_take(tail, 1);
                assert(width::total(tail.take(1)) > width);
            }
        }
        assert(all == seq![all[0]] + rest);
        assert(all.last() == rest.last());
        assert forall|i: int| 0 <= i < all.len() implies {
            let p = #[trigger] all[i];
            &&& p.row == row
            &&& start <= p.start <= p.end <= ws.len()
            &&& start < ws.len() ==> p.start < p.end
            &&& width::total(ws.subrange(p.start as int, p.end as int)) <= width || p.end - p.start
                == 1
            &&& i < all.len() - 1 ==> p.end < ws.len() && width::total(
                ws.subrange(p.start as int, p.end + 1),
            ) > width && p.end == all[i + 1].start
        } by {
            if i > 0 {
                assert(all[i] == rest[i - 1]);
                if i < all.len() - 1 {
                    assert(all[i + 1] == rest[i]);
                }
            } else {
                assert(all[1] == rest[0]);
            }
        }
    }
}

/// The widths held by each list of a list.
pub open spec fn width_lists(lists: Seq<Vec<usize>>) -> Seq<Seq<usize>> {
    lists.map_values(|ws: Vec<usize>| ws@)
}

/// The columns of each character of each line.
pub fn measure_lines(lines: &[String]) -> (out: Vec<Vec<usize>>)
    ensures
        width_lists(out@) == line_widths(text::strings(lines@)),
{
    let mut out: Vec<Vec<usize>> = Vec::new();
    for i in 0..lines.len()
        invariant
            width_lists(out@) == line_widths(text::strings(lines@)).take(i as int),
    {
        let ghost prior = width_lists(out@);
        out.push(width::measure(lines[i].as_str()));
        assert(width_lists(out@) =~= prior.push(width::widths(lines@[i as int]@)));
        assert(line_widths(text::strings(lines@)).take(i + 1) =~= prior.push(
            width::widths(lines@[i as int]@),
        ));
    }
    assert(width_lists(out@) =~= line_widths(text::strings(lines@)));
    out
}

/// Adds the pieces of one line.
fn wrap_line(ws: &[usize], row: usize, width: usize, out: &mut Vec<VisualRow>)
    requires
        width >= 1,
    ensures
        final(out)@ == old(out)@ + pieces(ws@, row as int, 0, width as int),
{
    let n = ws.len();
    let mut start: usize = 0;
    let mut used: usize = 0;
    let mut count: usize = 0;
    let ghost all = old(out)@ + pieces(ws@, row as int, 0, width as int);
    assert(width::total(ws@.subrange(0, 0)) == 0);
    while count < n
        invariant
            n == ws@.len(),
            width >= 1,
            start <= count <= n,
            n > 0 ==> start < n,
            used == width::total(ws@.subrange(start as int, count as int)),
            used <= width || count == start + 1,
            all == out@ + pieces(ws@, row as int, start as int, width as int),
        decreases n - count,
    {
        // A character wider than the pane can never fit: it stands alone on its
        // row.
        let w = ws[count];
        let ghost tail = ws@.skip(start as int);
        let ghost len = count - start;
        proof {
            assert(tail.take(len) =~= ws@.subrange(start as int, count as int));
            assert(tail.take(len + 1) =~= ws@.subrange(start as int, count + 1));
            width::lemma_total_take(tail, len);
        }
        if (w > width || used > width - w) && count > start {
            proof {
                if used <= width {
                    width::lemma_fit_is(tail, width as int, len);
                } else {
                    assert(width::total(tail.take(0)) == 0);
                    width::lemma_fit_is(tail, width as int, 0);
                }
                let piece = VisualRow { row, start, end: count };
                assert(pieces(ws@, row as int, start as int, width as int) =~= seq![piece] + pieces(
                    ws@,
                    row as int,
                    count as int,
                    width as int,
                ));
                assert(all =~= out@.push(piece) + pieces(
                    ws@,
                    row as int,
                    count as int,
                    width as int,
                ));
                let rest = ws@.skip(count as int);
                assert(rest.take(0) =~= ws@.subrange(count as int, count as int));
                assert(rest.take(1) =~= ws@.subrange(count as int, count + 1));
                width::lemma_total_take(rest, 0);
            }
            out.push(VisualRow { row, start, end: count });
            start = count;
            used = 0;
        }
        used = used + w;
        count = count + 1;
    }
    proof {
        let tail = ws@.skip(start as int);
        let len = count - start;
        assert(tail.take(len) =~= ws@.subrange(start as int, count as int));
        if used <= width {
            width::lemma_fit_is(tail, width as int, len);
        } else {
            assert(width::total(tail.take(0)) == 0);
            width::lemma_fit_is(tail, width as int, 0);
        }
        let piece = VisualRow { row, start, end: count };
        assert(pieces(ws@, row as int, start as int, width as int) =~= seq![piece]);
        assert(all =~= out@.push(piece));
    }
    out.push(VisualRow { row, start, end: count });
}

/// Cuts lines into visual rows, given the columns of each of their characters.
pub fn wrap_measured(lines: &[Vec<usize>], width: usize) -> (rows: Vec<VisualRow>)
    ensures
        rows@ == wrapped(width_lists(lines@), width as int),
{
    let cols: usize = if width < 1 {
        1
    } else {
        width
    };
    let mut rows: Vec<VisualRow> = Vec::new();
    for i in 0..lines.len()
        invariant
            cols == wrap_width(width as int),
            rows@ == wrapped(width_lists(lines@).take(i as int), width as int),
    {
        proof {
            let all = width_lists(lines@);
            assert(all.take(i + 1).drop_last() =~= all.take(i as int));
        }
        wrap_line(lines[i].as_slice(), i, cols, &mut rows);
    }
    assert(width_lists(lines@).take(lines@.len() as int) =~= width_lists(lines@));
    rows
}

/// Cuts logical lines into visual rows of a given width.
///
/// Wrapping goes by display columns, not by characters. An empty line gives an
/// empty row, else it would vanish from the display.
pub fn wrap(lines: &[String], width: usize) -> (rows: Vec<VisualRow>)
    ensures
        rows@ == wrapped(line_widths(text::strings(lines@)), width as int),
{
    let measured = measure_lines(lines);
    wrap_measured(measured.as_slice(), width)
}

/// Lines no machine limit rules out: their number and lengths can be counted.
pub open spec fn countable(lines: Seq<Seq<usize>>) -> bool {
    &&& lines.len() <= usize::MAX
    &&& forall|i: int| 0 <= i < lines.len() ==> (#[trigger] lines[i]).len() <= usize::MAX
}

/// The pieces of each line stand together, in order, and between those of the
/// lines before and after it.
pub proof fn rows_follow_the_lines(lines: Seq<Seq<usize>>, width: int, r: int)
    requires
        countable(lines),
        0 <= r < lines.len(),
    ensures
        ({
            let rows = wrapped(lines, width);
            let at = wrapped(lines.take(r), width).len() as int;
            let own = pieces(lines[r], r, 0, wrap_width(width));
            &&& at + own.len() <= rows.len()
            &&& rows.subrange(at, at + own.len()) == own
            &&& forall|i: int| 0 <= i < at ==> (#[trigger] rows[i]).row < r
            &&& forall|i: int| at + own.len() <= i < rows.len() ==> (#[trigger] rows[i]).row > r
        }),
    decreases lines.len(),
{
    let rows = wrapped(lines, width);
    let init = lines.drop_last();
    let before = wrapped(init, width);
    let n = lines.len() - 1;
    let last = pieces(lines.last(), n, 0, wrap_width(width));
    let own = pieces(lines[r], r, 0, wrap_width(width));
    let at = wrapped(lines.take(r), width).len() as int;
    pieces_cover_the_line(lines.last(), n, 0, wrap_width(width));
    assert(rows == before + last);
    assert forall|i: int| 0 <= i < init.len() implies (#[trigger] init[i]).len() <= usize::MAX by {
        assert(init[i] == lines[i]);
    }
    if r < n {
        rows_follow_the_lines(init, width, r);
        assert(init.take(r) =~= lines.take(r));
        assert(init[r] == lines[r]);
        assert(rows.subrange(at, at + own.len()) =~= before.subrange(
            at,
            at + own.len(),
        ));
        assert forall|i: int| 0 <= i < at implies (#[trigger] rows[i]).row < r by {
            assert(rows[i] == before[i]);
        }
        assert forall|i: int| at + own.len() <= i < rows.len() implies (#[trigger] rows[i]).row
            > r by {
            if i < before.len() {
                assert(rows[i] == before[i]);
            } else {
                assert(rows[i] == last[i - before.len()]);
            }
        }
    } else {
        assert(lines.take(r) =~= init);
        assert(rows.subrange(at, at + own.len()) =~= last);
        assert forall|i: int| 0 <= i < at implies (#[trigger] rows[i]).row < r by {
            lemma_row_in_range(init, width, i);
            assert(rows[i] == before[i]);
        }
    }
}

/// Every visual row is a piece of an existing line.
pub proof fn lemma_row_in_range(lines: Seq<Seq<usize>>, width: int, i: int)
    requires
        countable(lines),
        0 <= i < wrapped(lines, width).len(),
    ensures
        ({
            let v = wrapped(lines, width)[i];
            &&& v.row < lines.len()
            &&& v.start <= v.end <= lines[v.row as int].len()
        }),
    decreases lines.len(),
{
    let init = lines.drop_last();
    let before = wrapped(init, width);
    let n = lines.len() - 1;
    let last = pieces(lines.last(), n, 0, wrap_width(width));
    pieces_cover_the_line(lines.last(), n, 0, wrap_width(width));
    assert forall|k: int| 0 <= k < init.len() implies (#[trigger] init[k]).len() <= usize::MAX by {
        assert(init[k] == lines[k]);
    }
    if i < before.len() {
        lemma_row_in_range(init, width, i);
        let v = before[i];
        assert(init[v.row as int] == lines[v.row as int]);
    } else {
        assert(wrapped(lines, width)[i] == last[i - before.len()]);
    }
}

/// There is at least one visual row for each line.
pub proof fn lemma_rows_at_least_lines(lines: Seq<Seq<usize>>, width: int)
    requires
        countable(lines),
    ensures
        wrapped(lines, width).len() >= lines.len(),
    decreases lines.len(),
{
    if lines.len() > 0 {
        let init = lines.drop_last();
        assert forall|k: int| 0 <= k < init.len() implies (#[trigger] init[k]).len()
            <= usize::MAX by {
            assert(init[k] == lines[k]);
        }
        lemma_rows_at_least_lines(init, width);
        pieces_cover_the_line(lines.last(), lines.len() - 1, 0, wrap_width(width));
    }
}

/// Whether a position lies in a selection: at or after its start, before its end.
pub open spec fn selected(
    row: int,
    col: int,
    selection: ((usize, usize), (usize, usize)),
) -> bool {
    let ((start_row, start_col), (end_row, end_col)) = selection;
    &&& start_row < row || (start_row == row && start_col <= col)
    &&& row < end_row || (row == end_row && col < end_col)
}

/// The part of a visual row that a selection covers, from its first character to
/// the one after its last.
pub open spec fn covered(
    v: VisualRow,
    selection: ((usize, usize), (usize, usize)),
) -> Option<(usize, usize)> {
    let ((start_row, start_col), (end_row, end_col)) = selection;
    let from = if v.row == start_row && start_col > v.start {
        start_col
    } else {
        v.start
    };
    let to = if v.row == end_row && end_col < v.end {
        end_col
    } else {
        v.end
    };
    if start_row <= v.row <= end_row && from < to {
        Some((from, to))
    } else {
        None
    }
}

/// The part of a visual row covered by a selection, as indices into its logical
/// line; nothing where the selection touches none of its characters.
pub fn selection_in_row(
    visual: VisualRow,
    selection: ((usize, usize), (usize, usize)),
) -> (part: Option<(usize, usize)>)
    ensures
        part == covered(visual, selection),
        match part {
            Some((from, to)) => from < to && forall|col: int|
                from <= col < to <==> visual.start <= col < visual.end && #[trigger] selected(
                    visual.row as int,
                    col,
                    selection,
                ),
            None => forall|col: int|
                visual.start <= col < visual.end ==> !#[trigger] selected(
                    visual.row as int,
                    col,
                    selection,
                ),
        },
{
    let ((start_row, start_col), (end_row, end_col)) = selection;
    if visual.row < start_row || visual.row > end_row {
        return None;
    }
    let from: usize = if visual.row == start_row && start_col > visual.start {
        start_col
    } else {
        visual.start
    };
    let to: usize = if visual.row == end_row && end_col < visual.end {
        end_col
    } else {
        visual.end
    };
    if from < to {
        Some((from, to))
    } else {
        None
    }
}

/// Whether a visual row displays the character at a position.
pub open spec fn displays(v: VisualRow, row: int, col: int) -> bool {
    v.row == row && v.start <= col < v.end
}

/// The first visual row, from `i` on, that displays a position; the number of
/// rows where none does.
pub open spec fn first_displaying(rows: Seq<VisualRow>, row: int, col: int, i: int) -> int
    decreases rows.len() - i,
{
    if 0 <= i < rows.len() && !displays(rows[i], row, col) {
        first_displaying(rows, row, col, i + 1)
    } else {
        i
    }
}

/// One more than the last of the first `n` visual rows that belongs to a line;
/// zero where none does.
pub open spec fn after_last_of(rows: Seq<VisualRow>, row: int, n: int) -> int
    decreases n,
{
    if 0 < n <= rows.len() && rows[n - 1].row != row {
        after_last_of(rows, row, n - 1)
    } else {
        n
    }
}

/// The visual row that carries the cursor: the one that displays the character
/// after it, at the end of a line the last of that line, and the first of all
/// where the line does not exist.
pub open spec fn cursor_row(rows: Seq<VisualRow>, row: int, col: int) -> int {
    let first = first_displaying(rows, row, col, 0);
    let after = after_last_of(rows, row, rows.len() as int);
    if first < rows.len() {
        first
    } else if after > 0 {
        after - 1
    } else {
        0
    }
}

proof fn lemma_first_displaying(rows: Seq<VisualRow>, row: int, col: int, i: int)
    requires
        0 <= i <= rows.len(),
    ensures
        i <= first_displaying(rows, row, col, i) <= rows.len(),
        first_displaying(rows, row, col, i) < rows.len() ==> displays(
            rows[first_displaying(rows, row, col, i)],
            row,
            col,
        ),
        forall|j: int|
            i <= j < first_displaying(rows, row, col, i) ==> !displays(#[trigger] rows[j], row, col),
    decreases rows.len() - i,
{
    if i < rows.len() && !displays(rows[i], row, col) {
        lemma_first_displaying(rows, row, col, i + 1);
    }
}

proof fn lemma_after_last_of(rows: Seq<VisualRow>, row: int, n: int)
    requires
        0 <= n <= rows.len(),
    ensures
        0 <= after_last_of(rows, row, n) <= n,
        after_last_of(rows, row, n) > 0 ==> rows[after_last_of(rows, row, n) - 1].row == row,
        forall|j: int|
            after_last_of(rows, row, n) <= j < n ==> (#[trigger] rows[j]).row != row,
    decreases n,
{
    if n > 0 && rows[n - 1].row != row {
        lemma_after_last_of(rows, row, n - 1);
    }
}

/// The index of the visual row that carries the cursor.
pub fn cursor_visual_row(rows: &[VisualRow], cursor: (usize, usize)) -> (index: usize)
    ensures
        index == cursor_row(rows@, cursor.0 as int, cursor.1 as int),
        rows@.len() > 0 ==> index < rows@.len(),
{
    let (row, col) = cursor;
    let n = rows.len();
    proof {
        lemma_after_last_of(rows@, row as int, n as int);
    }
    let mut i: usize = 0;
    while i < n
        invariant
            n == rows@.len(),
            i <= n,
            cursor == (row, col),
            first_displaying(rows@, row as int, col as int, 0) == first_displaying(
                rows@,
                row as int,
                col as int,
                i as int,
            ),
        decreases n - i,
    {
        let v = rows[i];
        if v.row == row && col >= v.start && col < v.end {
            return i;
        }
        i = i + 1;
    }
    // At the end of a line no row displays the next character: the last piece of
    // the line carries the cursor.
    let mut k: usize = n;
    while k > 0 && rows[k - 1].row != row
        invariant
            n == rows@.len(),
            k <= n,
            after_last_of(rows@, row as int, n as int) == after_last_of(
                rows@,
                row as int,
                k as int,
            ),
        decreases k,
    {
        k = k - 1;
    }
    if k > 0 {
        k - 1
    } else {
        0
    }
}

/// A cursor that stands in the text is carried by a piece of its own line that
/// reaches from at or before it to at or after it, and displays the character
/// after it where there is one.
pub proof fn cursor_row_carries_the_cursor(
    lines: Seq<Seq<usize>>,
    width: int,
    row: int,
    col: int,
)
    requires
        countable(lines),
        0 <= row < lines.len(),
        0 <= col <= lines[row].len(),
    ensures
        ({
            let rows = wrapped(lines, width);
            let c = cursor_row(rows, row, col);
            &&& 0 <= c < rows.len()
            &&& rows[c].row == row
            &&& rows[c].start <= col <= rows[c].end
            &&& col < lines[row].len() ==> displays(rows[c], row, col)
            &&& col == lines[row].len() ==> rows[c].end == col
        }),
{
    let rows = wrapped(lines, width);
    let at = wrapped(lines.take(row), width).len() as int;
    let own = pieces(lines[row], row, 0, wrap_width(width));
    rows_follow_the_lines(lines, width, row);
    pieces_cover_the_line(lines[row], row, 0, wrap_width(width));
    assert forall|j: int| 0 <= j < own.len() implies rows[at + j] == #[trigger] own[j] by {
        assert(rows.subrange(at, at + own.len())[j] == rows[at + j]);
    }
    lemma_first_displaying(rows, row, col, 0);
    lemma_after_last_of(rows, row, rows.len() as int);
    let first = first_displaying(rows, row, col, 0);
    if col < lines[row].len() {
        let j = lemma_some_piece_displays(lines[row], row, 0, wrap_width(width), col);
        assert(rows[at + j] == own[j]);
        assert(displays(rows[at + j], row, col));
    } else {
        let last = own.len() - 1;
        assert(rows[at + last] == own[last]);
        if first < rows.len() {
            lemma_row_in_range(lines, width, first);
            assert(false);
        }
        let c = after_last_of(rows, row, rows.len() as int) - 1;
        assert(c >= at + last);
        assert(c == at + last);
        assert(own[last] == own.last());
    }
}

/// Every character of a line is displayed by one of its pieces.
proof fn lemma_some_piece_displays(
    ws: Seq<usize>,
    row: int,
    start: int,
    width: int,
    col: int,
) -> (j: int)
    requires
        0 <= start <= col < ws.len() <= usize::MAX,
        0 <= row <= usize::MAX,
        width >= 1,
    ensures
        0 <= j < pieces(ws, row, start, width).len(),
        displays(pieces(ws, row, start, width)[j], row, col),
    decreases ws.len() - start,
{
    let end = piece_end(ws, start, width);
    lemma_piece_end(ws, start, width);
    if col < end {
        0
    } else {
        let k = lemma_some_piece_displays(ws, row, end, width, col);
        let rest = pieces(ws, row, end, width);
        assert(pieces(ws, row, start, width)[k + 1] == rest[k]);
        k + 1
    }
}

/// The position a place in the text zone stands for, given the columns of each
/// character: the visual row drawn there, the last one below the text; in it the
/// character whose columns hold the place, the end of the row to its right.
/// Nothing outside the zone.
pub open spec fn clicked(
    lines: Seq<Seq<usize>>,
    body: Rect,
    scroll: int,
    pos: Position,
) -> Option<(int, int)> {
    let rows = wrapped(lines, body.width as int);
    if !body.holds(pos) || rows.len() == 0 {
        None
    } else {
        let index = scroll + (pos.y - body.y);
        let v = if index < rows.len() {
            rows[index]
        } else {
            rows.last()
        };
        let piece = lines[v.row as int].subrange(v.start as int, v.end as int);
        Some((v.row as int, v.start + width::fit(piece, pos.x - body.x)))
    }
}

/// A position as integers.
pub open spec fn position_view(at: Option<(usize, usize)>) -> Option<(int, int)> {
    match at {
        Some((row, col)) => Some((row as int, col as int)),
        None => None,
    }
}

/// The position a place in the text zone stands for, given the columns of each
/// character.
pub fn position_measured(
    lines: &[Vec<usize>],
    body: Rect,
    scroll: usize,
    pos: Position,
) -> (at: Option<(usize, usize)>)
    ensures
        position_view(at) == clicked(width_lists(lines@), body, scroll as int, pos),
        at matches Some((row, col)) ==> row < lines@.len() && col <= lines@[row as int]@.len(),
{
    if lines.len() == 0 || !body.contains(pos) {
        return None;
    }
    let rows = wrap_measured(lines, body.width as usize);
    proof {
        let all = width_lists(lines@);
        assert forall|i: int| 0 <= i < all.len() implies (#[trigger] all[i]).len()
            <= usize::MAX by {
            assert(all[i] == lines@[i]@);
            assert(lines@[i].len() <= usize::MAX);
        }
        lemma_rows_at_least_lines(all, body.width as int);
    }
    // A click below the last row falls back to it.
    let down: usize = (pos.y - body.y) as usize;
    let index: usize = if scroll < rows.len() && down < rows.len() - scroll {
        scroll + down
    } else {
        rows.len() - 1
    };
    let visual = rows[index];
    proof {
        let all = width_lists(lines@);
        lemma_row_in_range(all, body.width as int, index as int);
        assert(all[visual.row as int] == lines@[visual.row as int]@);
    }
    let piece = vstd::slice::slice_subrange(
        lines[visual.row].as_slice(),
        visual.start,
        visual.end,
    );
    let col = width::fitting(piece, (pos.x - body.x) as usize);
    Some((visual.row, visual.start + col))
}

/// The position of the cursor that a click in the text zone stands for: the
/// inverse of where the cursor is drawn. Nothing outside the text zone.
pub fn position_to_cursor(
    lines: &[String],
    body: Rect,
    scroll: usize,
    pos: Position,
) -> (at: Option<(usize, usize)>)
    ensures
        position_view(at) == clicked(
            line_widths(text::strings(lines@)),
            body,
            scroll as int,
            pos,
        ),
        at matches Some((row, col)) ==> row < lines@.len() && col <= lines@[row as int]@.len(),
{
    let measured = measure_lines(lines);
    let at = position_measured(measured.as_slice(), body, scroll, pos);
    proof {
        if let Some((row, _)) = at {
            assert(width_lists(measured@)[row as int] == line_widths(
                text::strings(lines@),
            )[row as int]);
        }
    }
    at
}

/// The share of the bar kept for the target zone, and its floor: one column in
/// three, but enough for a whole `→ hermes·p3`.
const TARGET_SHARE: usize = 3;

const TARGET_MIN_COLS: usize = 13;

/// What the bar knows of the targets: the one chosen, and how many there are in
/// the tab. The number decides what is shown, the target fills it.
#[derive(Debug, Clone, Copy)]
pub struct Targets<'a> {
    pub current: Option<&'a Target>,
    pub count: usize,
}

impl<'a> Default for Targets<'a> {
    /// No target at all.
    fn default() -> (t: Self)
        ensures
            t.current is None,
            t.count == 0,
    {
        Targets { current: None, count: 0 }
    }
}

/// The chosen target as plain text.
pub open spec fn current_view(current: Option<&Target>) -> Option<agents::TargetView> {
    match current {
        Some(t) => Some(t@),
        None => None,
    }
}

/// An entry of the bottom bar: what it does, what it shows, where. The three
/// travel together, so that no label can end up on the rectangle of another
/// action.
#[derive(Debug)]
pub struct BarItem {
    pub action: Action,
    pub label: String,
    pub rect: Rect,
}

/// An entry of the bottom bar as plain text.
pub struct BarItemView {
    pub action: Action,
    pub label: Seq<char>,
    pub rect: Rect,
}

impl View for BarItem {
    type V = BarItemView;

    open spec fn view(&self) -> BarItemView {
        BarItemView { action: self.action, label: self.label@, rect: self.rect }
    }
}

/// The entries of a list as plain text.
pub open spec fn item_views(items: Seq<BarItem>) -> Seq<BarItemView> {
    items.map_values(|i: BarItem| i@)
}

/// The columns the target zone may take.
pub open spec fn target_budget(bar_width: int) -> int {
    if bar_width / 3 > 13 {
        bar_width / 3
    } else {
        13
    }
}

/// The three entries that are always there.
pub open spec fn fixed_entries() -> Seq<(Action, Seq<char>)> {
    seq![
        (Action::Command(Command::Copy), "^C copy"@),
        (Action::Command(Command::Clear), "^L clear"@),
        (Action::Command(Command::Undo), "^Z undo"@),
    ]
}

/// The entries of the bar, in order: the fixed ones, the emit button once the
/// tab has an agent, the target zone once it has two.
pub open spec fn bar_entries(
    current: Option<agents::TargetView>,
    count: int,
    bar_width: int,
) -> Seq<(Action, Seq<char>)> {
    let emit = if count >= 1 {
        seq![(Action::Command(Command::Send), "^E emit to agent"@)]
    } else {
        Seq::empty()
    };
    let zone = if count >= 2 && current is Some {
        seq![(Action::CycleTarget, agents::label_of(current->0, target_budget(bar_width)))]
    } else {
        Seq::empty()
    };
    fixed_entries() + emit + zone
}

/// A sum of coordinates that stops at the largest one.
pub open spec fn edge(a: int, b: int) -> int {
    if a + b > u16::MAX {
        u16::MAX as int
    } else {
        a + b
    }
}

/// The entries from `i` on that fit into the bar when the first of them begins
/// at `x`, given the columns of each label: one column lies between two entries,
/// and nothing follows an entry that does not fit.
pub open spec fn laid_out(
    entries: Seq<(Action, Seq<char>)>,
    ws: Seq<u16>,
    bar: Rect,
    i: int,
    x: int,
) -> Seq<BarItemView>
    decreases entries.len() - i,
{
    if 0 <= i < entries.len() && x + ws[i] <= edge(bar.x as int, bar.width as int) {
        let rect = Rect { x: x as u16, y: bar.y, width: ws[i], height: 1 };
        seq![BarItemView { action: entries[i].0, label: entries[i].1, rect }] + laid_out(
            entries,
            ws,
            bar,
            i + 1,
            x + ws[i] + 1,
        )
    } else {
        Seq::empty()
    }
}

/// The columns of each label, as coordinates count them.
pub open spec fn label_columns(entries: Seq<(Action, Seq<char>)>) -> Seq<u16> {
    entries.map_values(|e: (Action, Seq<char>)| (width::total(width::widths(e.1)) % 0x10000) as u16)
}

/// The entries of a bar that are drawn.
pub open spec fn bar_items(
    current: Option<agents::TargetView>,
    count: int,
    bar: Rect,
) -> Seq<BarItemView> {
    let entries = bar_entries(current, count, bar.width as int);
    laid_out(entries, label_columns(entries), bar, 0, bar.x as int)
}

/// What is drawn of the bar is a prefix of its entries, each with its own label,
/// action and columns, inside the bar and one column apart from the next.
pub proof fn items_lie_apart_in_the_bar(
    entries: Seq<(Action, Seq<char>)>,
    ws: Seq<u16>,
    bar: Rect,
    i: int,
    x: int,
    k: int,
)
    requires
        0 <= i <= entries.len(),
        bar.x <= x,
        0 <= k < laid_out(entries, ws, bar, i, x).len(),
    ensures
        laid_out(entries, ws, bar, i, x).len() <= entries.len() - i,
        ({
            let item = laid_out(entries, ws, bar, i, x)[k];
            &&& item.action == entries[i + k].0
            &&& item.label == entries[i + k].1
            &&& item.rect.width == ws[i + k]
            &&& item.rect.y == bar.y
            &&& item.rect.height == 1
            &&& x <= item.rect.x
            &&& item.rect.x + item.rect.width <= edge(bar.x as int, bar.width as int)
            &&& k == 0 ==> item.rect.x == x
            &&& k + 1 < laid_out(entries, ws, bar, i, x).len() ==> laid_out(
                entries,
                ws,
                bar,
                i,
                x,
            )[k + 1].rect.x == item.rect.x + item.rect.width + 1
        }),
    decreases entries.len() - i,
{
    let items = laid_out(entries, ws, bar, i, x);
    let after = x + ws[i] + 1;
    let rest = laid_out(entries, ws, bar, i + 1, after);
    assert(items.len() == 1 + rest.len());
    lemma_laid_out_len(entries, ws, bar, i, x);
    if k > 0 {
        items_lie_apart_in_the_bar(entries, ws, bar, i + 1, after, k - 1);
        assert(items[k] == rest[k - 1]);
        if k + 1 < items.len() {
            assert(items[k + 1] == rest[k]);
        }
    } else if rest.len() > 0 {
        items_lie_apart_in_the_bar(entries, ws, bar, i + 1, after, 0);
        assert(items[1] == rest[0]);
    }
}

proof fn lemma_laid_out_len(
    entries: Seq<(Action, Seq<char>)>,
    ws: Seq<u16>,
    bar: Rect,
    i: int,
    x: int,
)
    requires
        0 <= i <= entries.len(),
    ensures
        laid_out(entries, ws, bar, i, x).len() <= entries.len() - i,
    decreases entries.len() - i,
{
    if i < entries.len() {
        lemma_laid_out_len(entries, ws, bar, i + 1, x + ws[i] + 1);
    }
}

/// Entries are left out only for want of room: the first one that is not drawn
/// would reach beyond the bar, one column after the last that is.
pub proof fn bar_keeps_all_that_fits(
    entries: Seq<(Action, Seq<char>)>,
    ws: Seq<u16>,
    bar: Rect,
    i: int,
    x: int,
)
    requires
        0 <= i <= entries.len(),
        bar.x <= x,
    ensures
        ({
            let items = laid_out(entries, ws, bar, i, x);
            let n = items.len() as int;
            let next = if n == 0 {
                x
            } else {
                items.last().rect.x + items.last().rect.width + 1
            };
            n < entries.len() - i ==> next + ws[i + n] > edge(bar.x as int, bar.width as int)
        }),
    decreases entries.len() - i,
{
    if i < entries.len() && x + ws[i] <= edge(bar.x as int, bar.width as int) {
        let items = laid_out(entries, ws, bar, i, x);
        let rest = laid_out(entries, ws, bar, i + 1, x + ws[i] + 1);
        bar_keeps_all_that_fits(entries, ws, bar, i + 1, x + ws[i] + 1);
        if rest.len() > 0 {
            assert(items.last() == rest.last());
        }
    }
}

/// Bars whose entries begin alike are drawn alike as far as that goes.
proof fn lemma_common_prefix(
    a: Seq<(Action, Seq<char>)>,
    b: Seq<(Action, Seq<char>)>,
    wa: Seq<u16>,
    wb: Seq<u16>,
    n: int,
    bar: Rect,
    i: int,
    x: int,
    k: int,
)
    requires
        0 <= i < n <= a.len(),
        n <= b.len(),
        0 <= k < n - i,
        forall|j: int| 0 <= j < n ==> a[j] == b[j] && wa[j] == wb[j],
    ensures
        ({
            let u = laid_out(a, wa, bar, i, x);
            let v = laid_out(b, wb, bar, i, x);
            &&& (k < u.len() <==> k < v.len())
            &&& k < u.len() ==> u[k] == v[k]
        }),
    decreases n - i,
{
    if x + wa[i] <= edge(bar.x as int, bar.width as int) {
        let after = x + wa[i] + 1;
        if k > 0 {
            lemma_common_prefix(a, b, wa, wb, n, bar, i + 1, after, k - 1);
        }
        let u = laid_out(a, wa, bar, i, x);
        let v = laid_out(b, wb, bar, i, x);
        let ru = laid_out(a, wa, bar, i + 1, after);
        let rv = laid_out(b, wb, bar, i + 1, after);
        assert(u.len() == 1 + ru.len());
        assert(v.len() == 1 + rv.len());
        if 0 < k < u.len() {
            assert(u[k] == ru[k - 1]);
            assert(v[k] == rv[k - 1]);
        }
    }
}

/// The fixed commands never move: whatever agents come and go, and whichever is
/// chosen, each of the first three entries is drawn at the same place or not at
/// all.
pub proof fn fixed_commands_never_move(
    current: Option<agents::TargetView>,
    count: int,
    other: Option<agents::TargetView>,
    other_count: int,
    bar: Rect,
    k: int,
)
    requires
        0 <= k < 3,
    ensures
        k < bar_items(current, count, bar).len() <==> k < bar_items(other, other_count, bar).len(),
        k < bar_items(current, count, bar).len() ==> bar_items(current, count, bar)[k] == bar_items(
            other,
            other_count,
            bar,
        )[k],
{
    let a = bar_entries(current, count, bar.width as int);
    let b = bar_entries(other, other_count, bar.width as int);
    assert forall|j: int| 0 <= j < 3 implies a[j] == b[j] && label_columns(a)[j] == label_columns(
        b,
    )[j] by {
        assert(a[j] == fixed_entries()[j]);
        assert(b[j] == fixed_entries()[j]);
    }
    lemma_common_prefix(a, b, label_columns(a), label_columns(b), 3, bar, 0, bar.x as int, k);
}

/// The entries of a bar as plain text.
pub open spec fn entry_views(entries: Seq<(Action, String)>) -> Seq<(Action, Seq<char>)> {
    entries.map_values(|e: (Action, String)| (e.0, e.1@))
}

/// The entries of the bar, in order. Those that come and go stand last: the
/// others never move under the finger.
fn bar_labels(targets: Targets, bar_width: usize) -> (entries: Vec<(Action, String)>)
    ensures
        entry_views(entries@) == bar_entries(
            current_view(targets.current),
            targets.count as int,
            bar_width as int,
        ),
{
    let mut entries: Vec<(Action, String)> = Vec::new();
    entries.push((Action::Command(Command::Copy), "^C copy".to_owned()));
    entries.push((Action::Command(Command::Clear), "^L clear".to_owned()));
    entries.push((Action::Command(Command::Undo), "^Z undo".to_owned()));
    assert(entry_views(entries@) =~= fixed_entries());
    // Without an agent in the tab there is nobody to talk to: the button does not
    // exist, rather than exist to refuse.
    if targets.count >= 1 {
        entries.push((Action::Command(Command::Send), "^E emit to agent".to_owned()));
    }
    // With one agent the zone would say nothing the button does not.
    if targets.count >= 2 {
        if let Some(target) = targets.current {
            let share: usize = bar_width / TARGET_SHARE;
            let budget: usize = if share > TARGET_MIN_COLS {
                share
            } else {
                TARGET_MIN_COLS
            };
            entries.push((Action::CycleTarget, agents::label(target, budget)));
        }
    }
    assert(entry_views(entries@) =~= bar_entries(
        current_view(targets.current),
        targets.count as int,
        bar_width as int,
    ));
    entries
}

/// Lays out the entries of a bar, given the columns of each label.
pub fn layout_measured(bar: Rect, entries: Vec<(Action, String)>, ws: &[u16]) -> (items: Vec<
    BarItem,
>)
    requires
        ws@.len() == entries@.len(),
    ensures
        item_views(items@) == laid_out(entry_views(entries@), ws@, bar, 0, bar.x as int),
{
    let mut items: Vec<BarItem> = Vec::new();
    let mut x: u32 = bar.x as u32;
    let right: u32 = bar.x.saturating_add(bar.width) as u32;
    let mut i: usize = 0;
    let ghost all = laid_out(entry_views(entries@), ws@, bar, 0, bar.x as int);
    assert(item_views(items@) =~= Seq::<BarItemView>::empty());
    assert(all =~= item_views(items@) + all);
    while i < entries.len()
        invariant
            ws@.len() == entries@.len(),
            i <= entries@.len(),
            x <= 0x10000,
            right == edge(bar.x as int, bar.width as int),
            all == laid_out(entry_views(entries@), ws@, bar, 0, bar.x as int),
            all == item_views(items@) + laid_out(
                entry_views(entries@),
                ws@,
                bar,
                i as int,
                x as int,
            ),
        decreases entries@.len() - i,
    {
        let w = ws[i];
        let ghost prior = item_views(items@);
        let ghost rest = laid_out(entry_views(entries@), ws@, bar, i as int, x as int);
        if x + w as u32 > right {
            assert(rest =~= Seq::<BarItemView>::empty());
            assert(all =~= item_views(items@));
            return items;
        }
        let rect = Rect { x: x as u16, y: bar.y, width: w, height: 1 };
        items.push(BarItem { action: entries[i].0, label: entries[i].1.clone(), rect });
        // One column between two entries, which no click reaches.
        x = x + w as u32 + 1;
        proof {
            let entry = entry_views(entries@)[i as int];
            let item = BarItemView { action: entry.0, label: entry.1, rect };
            let after = laid_out(entry_views(entries@), ws@, bar, i + 1, x as int);
            assert(item_views(items@) =~= prior.push(item));
            assert(rest =~= seq![item] + after);
            assert(all =~= item_views(items@) + after);
        }
        i = i + 1;
    }
    assert(all =~= item_views(items@));
    items
}

/// Every label of the bar is short enough for its columns to be a coordinate.
proof fn lemma_label_is_short(
    current: Option<agents::TargetView>,
    count: int,
    bar_width: int,
    k: int,
)
    requires
        0 <= bar_width <= u16::MAX,
        0 <= k < bar_entries(current, count, bar_width).len(),
    ensures
        ({
            let label = bar_entries(current, count, bar_width)[k].1;
            ||| label.len() <= 16 && forall|i: int|
                0 <= i < label.len() ==> width::printable(#[trigger] label[i])
            ||| width::total(width::widths(label)) <= u16::MAX
        }),
{
    reveal_strlit("^C copy");
    reveal_strlit("^L clear");
    reveal_strlit("^Z undo");
    reveal_strlit("^E emit to agent");
    if k == 4 {
        agents::label_fits_its_width(current->0, target_budget(bar_width));
    }
}

/// Lays out the bar: the entries that fit, each with its rectangle, which is as
/// wide as its label.
///
/// An entry that does not fit as a whole is left out, and so is everything after
/// it: an invisible rectangle that can be clicked would be a trap.
pub fn layout_bar(bar: Rect, targets: Targets) -> (items: Vec<BarItem>)
    ensures
        item_views(items@) == bar_items(current_view(targets.current), targets.count as int, bar),
        forall|k: int|
            0 <= k < items@.len() ==> (#[trigger] items@[k]).rect.width == width::total(
                width::widths(items@[k].label@),
            ),
{
    let entries = bar_labels(targets, bar.width as usize);
    let mut ws: Vec<u16> = Vec::new();
    let ghost labels = entry_views(entries@);
    let ghost current = current_view(targets.current);
    for i in 0..entries.len()
        invariant
            labels == entry_views(entries@),
            labels == bar_entries(current, targets.count as int, bar.width as int),
            ws@ == label_columns(labels).take(i as int),
            forall|k: int|
                0 <= k < i ==> #[trigger] ws@[k] == width::total(width::widths(labels[k].1)),
    {
        let n: usize = width::columns(entries[i].1.as_str());
        proof {
            assert(labels[i as int].1 == entries@[i as int].1@);
            lemma_label_is_short(current, targets.count as int, bar.width as int, i as int);
        }
        let w: u16 = n as u16;
        ws.push(w);
        assert(ws@ =~= label_columns(labels).take(i + 1));
    }
    assert(ws@ =~= label_columns(labels));
    let items = layout_measured(bar, entries, ws.as_slice());
    proof {
        let drawn = laid_out(labels, ws@, bar, 0, bar.x as int);
        assert forall|k: int| 0 <= k < items@.len() implies (#[trigger] items@[k]).rect.width
            == width::total(width::widths(items@[k].label@)) by {
            assert(drawn[k] == items@[k]@);
            items_lie_apart_in_the_bar(labels, ws@, bar, 0, bar.x as int, k);
            assert(ws@[k] == width::total(width::widths(labels[k].1)));
        }
    }
    items
}

/// The pieces of a line never overlap.
proof fn lemma_pieces_in_order(ws: Seq<usize>, row: int, start: int, width: int, a: int, b: int)
    requires
        0 <= start <= ws.len() <= usize::MAX,
        0 <= row <= usize::MAX,
        width >= 1,
        0 <= a < b < pieces(ws, row, start, width).len(),
    ensures
        pieces(ws, row, start, width)[a].end <= pieces(ws, row, start, width)[b].start,
    decreases ws.len() - start,
{
    let own = pieces(ws, row, start, width);
    let end = piece_end(ws, start, width);
    lemma_piece_end(ws, start, width);
    let rest = pieces(ws, row, end, width);
    assert(own == seq![own[0]] + rest);
    assert(own[b] == rest[b - 1]);
    if a == 0 {
        lemma_piece_starts(ws, row, end, width, b - 1);
    } else {
        assert(own[a] == rest[a - 1]);
        lemma_pieces_in_order(ws, row, end, width, a - 1, b - 1);
    }
}

proof fn lemma_piece_starts(ws: Seq<usize>, row: int, start: int, width: int, k: int)
    requires
        0 <= start <= ws.len() <= usize::MAX,
        0 <= row <= usize::MAX,
        width >= 1,
        0 <= k < pieces(ws, row, start, width).len(),
    ensures
        start <= pieces(ws, row, start, width)[k].start,
    decreases ws.len() - start,
{
    lemma_piece_end(ws, start, width);
    if k > 0 {
        let end = piece_end(ws, start, width);
        let rest = pieces(ws, row, end, width);
        assert(pieces(ws, row, start, width)[k] == rest[k - 1]);
        lemma_piece_starts(ws, row, end, width, k - 1);
    }
}

/// Every character of the text is displayed by one visual row, and by one only.
pub proof fn every_character_is_displayed_once(
    lines: Seq<Seq<usize>>,
    width: int,
    row: int,
    col: int,
    other: int,
)
    requires
        countable(lines),
        0 <= row < lines.len(),
        0 <= col < lines[row].len(),
        0 <= other < wrapped(lines, width).len(),
    ensures
        ({
            let rows = wrapped(lines, width);
            let c = cursor_row(rows, row, col);
            &&& 0 <= c < rows.len()
            &&& displays(rows[c], row, col)
            &&& displays(rows[other], row, col) ==> other == c
        }),
{
    let rows = wrapped(lines, width);
    let c = cursor_row(rows, row, col);
    cursor_row_carries_the_cursor(lines, width, row, col);
    if displays(rows[other], row, col) && other != c {
        let at = wrapped(lines.take(row), width).len() as int;
        let own = pieces(lines[row], row, 0, wrap_width(width));
        rows_follow_the_lines(lines, width, row);
        assert forall|j: int| 0 <= j < own.len() implies rows[at + j] == #[trigger] own[j] by {
            assert(rows.subrange(at, at + own.len())[j] == rows[at + j]);
        }
        let (a, b) = if other < c {
            (other - at, c - at)
        } else {
            (c - at, other - at)
        };
        assert(rows[at + a] == own[a]);
        assert(rows[at + b] == own[b]);
        lemma_pieces_in_order(lines[row], row, 0, wrap_width(width), a, b);
    }
}

/// What the display must know of the buffer: its text, its cursor, and what is
/// selected, all of the same moment.
pub struct Content<'a> {
    pub lines: &'a [String],
    /// Line, then column in characters.
    pub cursor: (usize, usize),
    /// From the first position to the one after the last, as the cursor counts.
    pub selection: Option<((usize, usize), (usize, usize))>,
}

/// What the display hands back for the next mouse event.
#[derive(Debug)]
pub struct Geometry {
    /// The text zone.
    pub body: Rect,
    /// The entries of the bar that were drawn.
    pub buttons: Vec<(Action, Rect)>,
    /// The number of visual rows, which bounds scrolling.
    pub total_rows: usize,
}

/// A row of text as it is drawn: plain, or with a selected part in reverse.
#[derive(Debug)]
pub enum TextRow {
    Plain(String),
    Marked { before: String, inside: String, after: String },
}

/// A row of text as characters.
pub enum TextRowView {
    Plain(Seq<char>),
    Marked { before: Seq<char>, inside: Seq<char>, after: Seq<char> },
}

impl View for TextRow {
    type V = TextRowView;

    open spec fn view(&self) -> TextRowView {
        match self {
            TextRow::Plain(s) => TextRowView::Plain(s@),
            TextRow::Marked { before, inside, after } => TextRowView::Marked {
                before: before@,
                inside: inside@,
                after: after@,
            },
        }
    }
}

/// The rows of a list as characters.
pub open spec fn row_views(rows: Seq<TextRow>) -> Seq<TextRowView> {
    rows.map_values(|r: TextRow| r@)
}

/// What is drawn of a visual row of `line`.
pub open spec fn shown_row(
    line: Seq<char>,
    v: VisualRow,
    selection: Option<((usize, usize), (usize, usize))>,
) -> TextRowView {
    let part = match selection {
        Some(s) => covered(v, s),
        None => None,
    };
    match part {
        Some((from, to)) => TextRowView::Marked {
            before: line.subrange(v.start as int, from as int),
            inside: line.subrange(from as int, to as int),
            after: line.subrange(to as int, v.end as int),
        },
        None => TextRowView::Plain(line.subrange(v.start as int, v.end as int)),
    }
}

/// How many of `total` visual rows are drawn from `scroll` on in `height` rows.
pub open spec fn shown_count(total: int, scroll: int, height: int) -> int {
    if total - scroll < height {
        total - scroll
    } else {
        height
    }
}

/// The rows drawn from `scroll` on.
pub open spec fn shown_rows(
    lines: Seq<Seq<char>>,
    rows: Seq<VisualRow>,
    selection: Option<((usize, usize), (usize, usize))>,
    scroll: int,
    height: int,
) -> Seq<TextRowView> {
    Seq::new(
        shown_count(rows.len() as int, scroll, height) as nat,
        |i: int| shown_row(lines[rows[scroll + i].row as int], rows[scroll + i], selection),
    )
}

/// The first visual row that is drawn: the one asked for as far as the text
/// goes, but no further from the cursor than keeps it in sight.
pub open spec fn scrolled(scroll: int, total: int, height: int, cursor: int) -> int {
    let most = if total > height {
        total - height
    } else {
        0
    };
    let s = if scroll > most {
        most
    } else {
        scroll
    };
    if cursor < s {
        cursor
    } else if height > 0 && cursor >= s + height {
        cursor + 1 - height
    } else {
        s
    }
}

/// The column of a cursor within its visual row, as coordinates count.
pub open spec fn cursor_column(ws: Seq<usize>, v: VisualRow, col: int) -> int {
    let to = if col < v.start {
        v.start as int
    } else if col > ws.len() {
        ws.len() as int
    } else {
        col
    };
    width::total(ws.subrange(v.start as int, to)) % 0x10000
}

/// Where the cursor is drawn: in its visual row, at its column, at most at the
/// last one; nowhere in a text zone without height.
pub open spec fn cursor_place(
    lines: Seq<Seq<usize>>,
    body: Rect,
    scroll: int,
    row: int,
    col: int,
) -> Option<Position> {
    let rows = wrapped(lines, body.width as int);
    let c = cursor_row(rows, row, col);
    if body.height > 0 && scroll <= c < scroll + body.height {
        let column = cursor_column(lines[rows[c].row as int], rows[c], col);
        let last = if body.width > 0 {
            body.width - 1
        } else {
            0
        };
        Some(
            Position {
                x: (body.x + if column > last {
                    last
                } else {
                    column
                }) as u16,
                y: (body.y + (c - scroll)) as u16,
            },
        )
    } else {
        None
    }
}

/// However far the text is scrolled, the cursor is in sight, and no more rows
/// are passed over than the text has to spare.
pub proof fn cursor_stays_in_sight(scroll: int, total: int, height: int, cursor: int)
    requires
        0 <= scroll,
        0 <= cursor < total,
        0 < height,
    ensures
        0 <= scrolled(scroll, total, height, cursor) <= cursor,
        cursor < scrolled(scroll, total, height, cursor) + height,
        scrolled(scroll, total, height, cursor) == 0 || scrolled(scroll, total, height, cursor)
            + height <= total,
{
}

/// A click where the cursor was drawn puts it back where it was, wherever it is
/// drawn at a column of its own: the next character takes room, and the cursor
/// has not reached the right edge of a full row.
pub proof fn click_finds_the_drawn_cursor(
    lines: Seq<Seq<usize>>,
    body: Rect,
    scroll: int,
    row: int,
    col: int,
)
    requires
        countable(lines),
        0 <= row < lines.len(),
        0 <= col <= lines[row].len(),
        0 <= scroll,
        body.height > 0,
        body.x + body.width <= u16::MAX,
        body.y + body.height <= u16::MAX,
        col < lines[row].len() ==> lines[row][col] > 0,
        ({
            let rows = wrapped(lines, body.width as int);
            let v = rows[cursor_row(rows, row, col)];
            width::total(lines[row].subrange(v.start as int, col)) < body.width
        }),
    ensures
        ({
            let rows = wrapped(lines, body.width as int);
            let s = scrolled(
                scroll,
                rows.len() as int,
                body.height as int,
                cursor_row(rows, row, col),
            );
            &&& cursor_place(lines, body, s, row, col) is Some
            &&& clicked(lines, body, s, cursor_place(lines, body, s, row, col)->0) == Some(
                (row, col),
            )
        }),
{
    let rows = wrapped(lines, body.width as int);
    let c = cursor_row(rows, row, col);
    let v = rows[c];
    let ws = lines[row];
    cursor_row_carries_the_cursor(lines, body.width as int, row, col);
    cursor_stays_in_sight(scroll, rows.len() as int, body.height as int, c);
    let w = width::total(ws.subrange(v.start as int, col));
    width::lemma_total_nonnegative(ws.subrange(v.start as int, col));
    lemma_row_in_range(lines, body.width as int, c);
    let piece = ws.subrange(v.start as int, v.end as int);
    let n = col - v.start;
    assert(piece.take(n) =~= ws.subrange(v.start as int, col));
    if n < piece.len() {
        width::lemma_total_take(piece, n);
    }
    width::lemma_fit_is(piece, w, n);
}

/// The text zone of a pane: all but the last line, which is the bar's, unless
/// there is only one.
pub open spec fn body_of(area: Rect) -> Rect {
    if area.height >= 2 {
        Rect { height: (area.height - 1) as u16, ..area }
    } else {
        area
    }
}

/// The bar of a pane: its last line, none of it where the pane has only one.
pub open spec fn bar_of(area: Rect) -> Rect {
    if area.height >= 2 {
        Rect { y: (area.y + area.height - 1) as u16, height: 1, ..area }
    } else {
        Rect { height: 0, ..area }
    }
}

/// The text and the bar share the pane between them: the bar costs one line, and
/// no place belongs to both.
pub proof fn bar_costs_one_line(area: Rect, pos: Position)
    requires
        area.y + area.height <= u16::MAX,
    ensures
        area.height >= 2 ==> body_of(area).height == area.height - 1 && bar_of(area).height == 1,
        area.height < 2 ==> body_of(area) == area && bar_of(area).height == 0,
        !(body_of(area).holds(pos) && bar_of(area).holds(pos)),
        area.holds(pos) <==> body_of(area).holds(pos) || bar_of(area).holds(pos),
{
}

/// The text of the pane as it is drawn.
#[derive(Debug)]
pub struct Sheet {
    pub rows: Vec<TextRow>,
    pub cursor: Option<Position>,
    /// The number of visual rows, drawn or not.
    pub total_rows: usize,
}

/// The sum of widths, as coordinates count.
fn column_sum(ws: &[usize]) -> (n: u16)
    ensures
        n == width::total(ws@) % 0x10000,
{
    let mut n: u32 = 0;
    for i in 0..ws.len()
        invariant
            n < 0x10000,
            n == width::total(ws@.take(i as int)) % 0x10000,
    {
        proof {
            width::lemma_total_take(ws@, i as int);
        }
        let w: u32 = (ws[i] % 0x10000) as u32;
        n = (n + w) % 0x10000;
    }
    assert(ws@.take(ws@.len() as int) =~= ws@);
    n as u16
}

/// What is drawn of one visual row.
fn show_row(
    line: &str,
    visual: VisualRow,
    selection: Option<((usize, usize), (usize, usize))>,
) -> (row: TextRow)
    requires
        visual.start <= visual.end <= line@.len(),
    ensures
        row@ == shown_row(line@, visual, selection),
{
    let part = match selection {
        Some(s) => selection_in_row(visual, s),
        None => None,
    };
    match part {
        Some((from, to)) => TextRow::Marked {
            before: line.substring_char(visual.start, from).to_owned(),
            inside: line.substring_char(from, to).to_owned(),
            after: line.substring_char(to, visual.end).to_owned(),
        },
        None => TextRow::Plain(line.substring_char(visual.start, visual.end).to_owned()),
    }
}

/// Lays out the text, given the columns of each of its characters. The scroll
/// position, in visual rows, is brought into range and to the cursor.
pub fn lay_text(
    body: Rect,
    content: &Content,
    measured: &[Vec<usize>],
    scroll: &mut usize,
) -> (sheet: Sheet)
    requires
        content.lines@.len() >= 1 || body.height == 0,
        measured@.len() == content.lines@.len(),
        forall|i: int|
            0 <= i < measured@.len() ==> (#[trigger] measured@[i])@.len()
                == content.lines@[i]@.len(),
        body.height >= 1 ==> body.x + body.width <= 0x10000,
        body.height >= 1 ==> body.y + body.height <= 0x10000,
    ensures
        ({
            let rows = wrapped(width_lists(measured@), body.width as int);
            let c = cursor_row(rows, content.cursor.0 as int, content.cursor.1 as int);
            &&& *final(scroll) == scrolled(
                *old(scroll) as int,
                rows.len() as int,
                body.height as int,
                c,
            )
            &&& *old(scroll) <= c < *old(scroll) + body.height && *old(scroll) + body.height
                <= rows.len() ==> *final(scroll) == *old(scroll)
            &&& row_views(sheet.rows@) == shown_rows(
                text::strings(content.lines@),
                rows,
                content.selection,
                *final(scroll) as int,
                body.height as int,
            )
            &&& sheet.cursor == cursor_place(
                width_lists(measured@),
                body,
                *final(scroll) as int,
                content.cursor.0 as int,
                content.cursor.1 as int,
            )
            &&& sheet.total_rows == rows.len()
        }),
{
    let rows = wrap_measured(measured, body.width as usize);
    let height: usize = body.height as usize;
    let ghost all = width_lists(measured@);
    let ghost chars = text::strings(content.lines@);
    proof {
        assert(measured.len() <= usize::MAX);
        assert forall|i: int| 0 <= i < all.len() implies (#[trigger] all[i]).len()
            <= usize::MAX by {
            assert(all[i] == measured@[i]@);
            assert(measured@[i].len() <= usize::MAX);
        }
        lemma_rows_at_least_lines(all, body.width as int);
    }
    let at = cursor_visual_row(rows.as_slice(), content.cursor);
    // Keeping the cursor in sight comes before the position asked for.
    let most: usize = rows.len().saturating_sub(height);
    if *scroll > most {
        *scroll = most;
    }
    if at < *scroll {
        *scroll = at;
    } else if height > 0 && at - *scroll >= height {
        *scroll = at - height + 1;
    }
    let from: usize = *scroll;
    let total: usize = rows.len();
    let shown: usize = if total - from < height {
        total - from
    } else {
        height
    };
    let mut drawn: Vec<TextRow> = Vec::new();
    for i in 0..shown
        invariant
            all == width_lists(measured@),
            chars == text::strings(content.lines@),
            countable(all),
            rows@ == wrapped(all, body.width as int),
            measured@.len() == content.lines@.len(),
            forall|k: int|
                0 <= k < measured@.len() ==> (#[trigger] measured@[k])@.len()
                    == content.lines@[k]@.len(),
            total == rows@.len(),
            from + shown <= total,
            height == body.height,
            shown == shown_count(rows@.len() as int, from as int, height as int),
            row_views(drawn@) == shown_rows(
                chars,
                rows@,
                content.selection,
                from as int,
                height as int,
            ).take(i as int),
    {
        let visual = rows[from + i];
        proof {
            lemma_row_in_range(all, body.width as int, from + i);
            assert(all[visual.row as int] == measured@[visual.row as int]@);
        }
        let ghost prior = row_views(drawn@);
        drawn.push(show_row(content.lines[visual.row].as_str(), visual, content.selection));
        proof {
            let whole = shown_rows(chars, rows@, content.selection, from as int, height as int);
            assert(chars[visual.row as int] == content.lines@[visual.row as int]@);
            assert(row_views(drawn@) =~= prior.push(whole[i as int]));
            assert(whole.take(i + 1) =~= prior.push(whole[i as int]));
        }
    }
    assert(row_views(drawn@) =~= shown_rows(
        chars,
        rows@,
        content.selection,
        from as int,
        height as int,
    ));
    let cursor: Option<Position> = if height > 0 {
        let visual = rows[at];
        proof {
            lemma_row_in_range(all, body.width as int, at as int);
            assert(all[visual.row as int] == measured@[visual.row as int]@);
        }
        let ws = measured[visual.row].as_slice();
        let col = content.cursor.1;
        let to: usize = if col < visual.start {
            visual.start
        } else if col > ws.len() {
            ws.len()
        } else {
            col
        };
        let column: u16 = column_sum(vstd::slice::slice_subrange(ws, visual.start, to));
        let last: u16 = body.width.saturating_sub(1);
        let x: u16 = if column > last {
            last
        } else {
            column
        };
        Some(Position { x: body.x + x, y: body.y + (at - from) as u16 })
    } else {
        None
    };
    Sheet { rows: drawn, cursor, total_rows: total }
}

/// Shown while the buffer is empty; gone at the first keystroke. It alone
/// teaches the two keys without a button, and must fit a narrow terminal.
pub const EMPTY_HINT: &'static str =
    "Paste here. ^E emit · ^C copy · ^L clear · ^S file · ^Z undo · Esc close";

/// What `Line::width` of the `ratatui` crate returns for `Line::raw` of a text:
/// the columns of a line of that text.
pub uninterp spec fn line_columns(text: Seq<char>) -> usize;

/// What `Span::width` of the `ratatui` crate returns for `Span::raw` of a text:
/// the columns of that text within a line.
pub uninterp spec fn span_columns(text: Seq<char>) -> usize;

/// `Line::width` of the `ratatui` crate, on the line that `Line::raw` makes of a
/// text. Beside naming its result, the contract claims that an empty text takes
/// no columns.
#[verifier::external_body]
fn width_of_line(text: &str) -> (w: usize)
    ensures
        w == line_columns(text@),
        text@.len() == 0 ==> w == 0,
{
    ratatui::text::Line::raw(text).width()
}

/// `Span::width` of the `ratatui` crate, on the span that `Span::raw` makes of a
/// text. Beside naming its result, the contract claims that an empty text takes
/// no columns.
#[verifier::external_body]
fn width_of_span(text: &str) -> (w: usize)
    ensures
        w == span_columns(text@),
        text@.len() == 0 ==> w == 0,
{
    ratatui::text::Span::raw(text).width()
}

/// Whether a drawn row takes no columns. Those of a marked row are the sum of
/// the columns of its parts.
pub open spec fn row_is_blank(row: TextRowView) -> bool {
    match row {
        TextRowView::Plain(s) => line_columns(s) == 0,
        TextRowView::Marked { before, inside, after } => span_columns(before) == 0 && span_columns(
            inside,
        ) == 0 && span_columns(after) == 0,
    }
}

/// Whether the hint takes the place of the first row.
pub open spec fn hint_shown(show_hint: bool, rows: Seq<TextRowView>) -> bool {
    show_hint && rows.len() > 0 && row_is_blank(rows[0])
}

fn is_blank_row(row: &TextRow) -> (blank: bool)
    ensures
        blank == row_is_blank(row@),
        row@ == TextRowView::Plain(Seq::empty()) ==> blank,
{
    match row {
        TextRow::Plain(s) => width_of_line(s.as_str()) == 0,
        TextRow::Marked { before, inside, after } => width_of_span(before.as_str()) == 0
            && width_of_span(inside.as_str()) == 0 && width_of_span(after.as_str()) == 0,
    }
}

/// What the bar shows: nothing in a pane without room for it, a message for a
/// few seconds, else the buttons.
#[derive(Debug)]
pub enum BarContent {
    Hidden,
    Message(String),
    Buttons(Vec<BarItem>),
}

/// What the bar shows, as plain text.
pub enum BarView {
    Hidden,
    Message(Seq<char>),
    Buttons(Seq<BarItemView>),
}

impl View for BarContent {
    type V = BarView;

    open spec fn view(&self) -> BarView {
        match self {
            BarContent::Hidden => BarView::Hidden,
            BarContent::Message(m) => BarView::Message(m@),
            BarContent::Buttons(items) => BarView::Buttons(item_views(items@)),
        }
    }
}

/// What the bar shows.
pub open spec fn bar_content(
    bar: Rect,
    status: Option<Seq<char>>,
    current: Option<agents::TargetView>,
    count: int,
) -> BarView {
    if bar.height == 0 {
        BarView::Hidden
    } else if status is Some {
        BarView::Message(status->0)
    } else {
        BarView::Buttons(bar_items(current, count, bar))
    }
}

/// What a click can hit in the bar: its buttons, in order.
pub open spec fn hit_zones(bar: BarView) -> Seq<(Action, Rect)> {
    match bar {
        BarView::Buttons(items) => items.map_values(|i: BarItemView| (i.action, i.rect)),
        _ => Seq::empty(),
    }
}

/// Everything to paint, and the geometry to keep for the next mouse event.
#[derive(Debug)]
pub struct Picture {
    pub rows: Vec<TextRow>,
    /// Whether [`EMPTY_HINT`] takes the place of the first row.
    pub hint: bool,
    pub bar_area: Rect,
    pub bar: BarContent,
    pub cursor: Option<Position>,
    pub geometry: Geometry,
}

/// Lays out the bar: a message takes the place of the buttons.
fn lay_bar(bar: Rect, status: Option<&str>, targets: Targets) -> (content: BarContent)
    ensures
        content@ == bar_content(
            bar,
            text::text_view(status),
            current_view(targets.current),
            targets.count as int,
        ),
{
    if bar.height == 0 {
        BarContent::Hidden
    } else if let Some(message) = status {
        BarContent::Message(message.to_owned())
    } else {
        BarContent::Buttons(layout_bar(bar, targets))
    }
}

/// The rectangles of the buttons, with what they do.
fn buttons_of(bar: &BarContent) -> (buttons: Vec<(Action, Rect)>)
    ensures
        buttons@ == hit_zones(bar@),
{
    let mut buttons: Vec<(Action, Rect)> = Vec::new();
    if let BarContent::Buttons(items) = bar {
        for i in 0..items.len()
            invariant
                buttons@ == hit_zones(BarView::Buttons(item_views(items@))).take(i as int),
        {
            buttons.push((items[i].action, items[i].rect));
            assert(buttons@ =~= hit_zones(BarView::Buttons(item_views(items@))).take(i + 1));
        }
        assert(buttons@ =~= hit_zones(bar@));
    }
    buttons
}

/// Lays out the pane: what to paint, and where it went.
///
/// `scroll` counts visual rows. It is brought into range here, against the
/// height there really is, and the caller gets the corrected value.
pub fn draw(
    area: Rect,
    content: Content,
    scroll: &mut usize,
    status: Option<&str>,
    show_hint: bool,
    targets: Targets,
) -> (picture: Picture)
    requires
        content.lines@.len() >= 1 || area.height == 0,
        area.height >= 1 ==> area.x + area.width <= 0x10000,
        area.height >= 2 ==> area.y + area.height <= u16::MAX,
    ensures
        ({
            let body = body_of(area);
            let lines = text::strings(content.lines@);
            let ws = line_widths(lines);
            let rows = wrapped(ws, body.width as int);
            let (row, col) = content.cursor;
            let c = cursor_row(rows, row as int, col as int);
            &&& *final(scroll) == scrolled(
                *old(scroll) as int,
                rows.len() as int,
                body.height as int,
                c,
            )
            &&& *old(scroll) <= c < *old(scroll) + body.height && *old(scroll) + body.height
                <= rows.len() ==> *final(scroll) == *old(scroll)
            &&& row_views(picture.rows@) == shown_rows(
                lines,
                rows,
                content.selection,
                *final(scroll) as int,
                body.height as int,
            )
            &&& picture.cursor == cursor_place(
                ws,
                body,
                *final(scroll) as int,
                row as int,
                col as int,
            )
            &&& picture.geometry.body == body
            &&& picture.geometry.total_rows == rows.len()
        }),
        picture.hint == hint_shown(show_hint, row_views(picture.rows@)),
        picture.bar_area == bar_of(area),
        picture.bar@ == bar_content(
            bar_of(area),
            text::text_view(status),
            current_view(targets.current),
            targets.count as int,
        ),
        picture.geometry.buttons@ == hit_zones(picture.bar@),
        show_hint && picture.rows@.len() > 0 && picture.rows@[0]@ == TextRowView::Plain(
            Seq::empty(),
        ) ==> picture.hint,
{
    // The bar takes exactly one line. In a pane of one line the text comes first.
    let (body, bar) = if area.height >= 2 {
        (
            Rect { x: area.x, y: area.y, width: area.width, height: area.height - 1 },
            Rect { x: area.x, y: area.y + area.height - 1, width: area.width, height: 1 },
        )
    } else {
        (area, Rect { x: area.x, y: area.y, width: area.width, height: 0 })
    };
    let measured = measure_lines(content.lines);
    proof {
        let lines = text::strings(content.lines@);
        assert(width_lists(measured@) == line_widths(lines));
        assert(measured@.len() == width_lists(measured@).len());
        assert forall|i: int| 0 <= i < measured@.len() implies (#[trigger] measured@[i])@.len()
            == content.lines@[i]@.len() by {
            assert(width_lists(measured@)[i] == line_widths(lines)[i]);
        }
    }
    let sheet = lay_text(body, &content, measured.as_slice(), scroll);
    let hint = show_hint && sheet.rows.len() > 0 && is_blank_row(&sheet.rows[0]);
    let bar_content = lay_bar(bar, status, targets);
    let buttons = buttons_of(&bar_content);
    Picture {
        rows: sheet.rows,
        hint,
        bar_area: bar,
        bar: bar_content,
        cursor: sheet.cursor,
        geometry: Geometry { body, buttons, total_rows: sheet.total_rows },
    }
}

/// Drawing moves the view for the cursor's sake alone. A scroll position within
/// the text that shows the cursor is drawn as it is. Any other is first brought
/// into the text, and then as little further as brings the cursor in sight: no
/// other position that shows the cursor is nearer.
pub proof fn view_moves_no_more_than_the_cursor_needs(
    scroll: int,
    total: int,
    height: int,
    cursor: int,
    other: int,
)
    requires
        0 <= scroll,
        0 <= cursor < total,
        0 < height,
        0 <= other <= cursor < other + height,
    ensures
        ({
            let drawn = scrolled(scroll, total, height, cursor);
            let most = if total > height {
                total - height
            } else {
                0
            };
            let asked = if scroll > most {
                most
            } else {
                scroll
            };
            &&& scroll <= most && scroll <= cursor < scroll + height ==> drawn == scroll
            &&& drawn <= cursor < drawn + height
            &&& 0 <= drawn <= most
            &&& buffer::distance(drawn, asked) <= buffer::distance(other, asked)
        }),
{
}

/// What was drawn once is drawn again at the same place.
pub proof fn drawing_again_moves_nothing(scroll: int, total: int, height: int, cursor: int)
    requires
        0 <= scroll,
        0 <= cursor < total,
        0 <= height,
    ensures
        ({
            let drawn = scrolled(scroll, total, height, cursor);
            scrolled(drawn, total, height, cursor) == drawn
        }),
{
}

/// The characters of a drawn row, selected or not.
pub open spec fn row_text(row: TextRowView) -> Seq<char> {
    match row {
        TextRowView::Plain(s) => s,
        TextRowView::Marked { before, inside, after } => before + inside + after,
    }
}

/// Whether a drawn row shows its character `k` in reverse.
pub open spec fn in_reverse(row: TextRowView, k: int) -> bool {
    match row {
        TextRowView::Plain(_) => false,
        TextRowView::Marked { before, inside, .. } => before.len() <= k < before.len()
            + inside.len(),
    }
}

/// The rows drawn are those of the text from the scroll position on, as many as
/// the pane has room for and the text has: each shows all the characters of its
/// piece, in order, and in reverse exactly those from the start of the selection
/// up to its end.
pub proof fn drawn_rows_show_the_text(
    lines: Seq<Seq<char>>,
    width: int,
    selection: Option<((usize, usize), (usize, usize))>,
    scroll: int,
    height: int,
    i: int,
    k: int,
)
    requires
        countable(line_widths(lines)),
        0 <= scroll <= wrapped(line_widths(lines), width).len(),
        0 <= i < height,
        scroll + i < wrapped(line_widths(lines), width).len(),
    ensures
        ({
            let rows = wrapped(line_widths(lines), width);
            let shown = shown_rows(lines, rows, selection, scroll, height);
            let v = rows[scroll + i];
            let col = v.start + k;
            &&& i < shown.len() <= height
            &&& shown.len() == height || scroll + shown.len() == rows.len()
            &&& row_text(shown[i]) == lines[v.row as int].subrange(v.start as int, v.end as int)
            &&& 0 <= k < v.end - v.start ==> (in_reverse(shown[i], k) <==> (selection matches Some(
                s,
            ) && (s.0.0 < v.row || (s.0.0 == v.row && s.0.1 <= col)) && (v.row < s.1.0 || (v.row
                == s.1.0 && col < s.1.1))))
        }),
{
    let ws = line_widths(lines);
    let rows = wrapped(ws, width);
    let v = rows[scroll + i];
    lemma_row_in_range(ws, width, scroll + i);
    let line = lines[v.row as int];
    assert(ws[v.row as int].len() == line.len());
    let shown = shown_rows(lines, rows, selection, scroll, height);
    assert(row_text(shown[i]) =~= line.subrange(v.start as int, v.end as int));
}

/// The visual row that a click at some height falls on: the one drawn there, the
/// last one below the text.
pub open spec fn row_under(total: int, body: Rect, scroll: int, pos: Position) -> int {
    let index = scroll + (pos.y - body.y);
    if index < total {
        index
    } else {
        total - 1
    }
}

/// A click falls on the character that is drawn under it: the one whose columns
/// hold the place, in the row that is drawn there, or in the last row below the
/// text. To the right of a row it falls after the last character.
pub proof fn click_finds_the_character_under_it(
    lines: Seq<Seq<usize>>,
    body: Rect,
    scroll: int,
    pos: Position,
    col: int,
)
    requires
        countable(lines),
        lines.len() > 0,
        0 <= scroll,
        body.holds(pos),
    ensures
        ({
            let rows = wrapped(lines, body.width as int);
            let v = rows[row_under(rows.len() as int, body, scroll, pos)];
            let line = lines[v.row as int];
            let x = pos.x - body.x;
            &&& clicked(lines, body, scroll, pos) is Some
            &&& v.start <= col < v.end && width::total(line.subrange(v.start as int, col)) <= x
                < width::total(line.subrange(v.start as int, col + 1)) ==> clicked(
                lines,
                body,
                scroll,
                pos,
            ) == Some((v.row as int, col))
            &&& x >= width::total(line.subrange(v.start as int, v.end as int)) ==> clicked(
                lines,
                body,
                scroll,
                pos,
            ) == Some((v.row as int, v.end as int))
        }),
{
    let rows = wrapped(lines, body.width as int);
    lemma_rows_at_least_lines(lines, body.width as int);
    let k = row_under(rows.len() as int, body, scroll, pos);
    lemma_row_in_range(lines, body.width as int, k);
    let v = rows[k];
    let line = lines[v.row as int];
    let piece = line.subrange(v.start as int, v.end as int);
    let x = pos.x - body.x;
    if v.start <= col < v.end {
        let n = col - v.start;
        assert(piece.take(n) =~= line.subrange(v.start as int, col));
        assert(piece.take(n + 1) =~= line.subrange(v.start as int, col + 1));
        if width::total(piece.take(n)) <= x < width::total(piece.take(n + 1)) {
            width::lemma_fit_is(piece, x, n);
        }
    }
    assert(piece.take(piece.len() as int) =~= piece);
    if x >= width::total(piece) {
        width::lemma_fit_is(piece, x, piece.len() as int);
    }
}

/// A click outside the text zone means nothing to the text.
pub proof fn click_outside_finds_nothing(
    lines: Seq<Seq<usize>>,
    body: Rect,
    scroll: int,
    pos: Position,
)
    requires
        pos.x < body.x || pos.x >= body.x + body.width || pos.y < body.y || pos.y >= body.y
            + body.height,
    ensures
        clicked(lines, body, scroll, pos) is None,
{
}

/// The cursor is drawn in the row that carries it, as far to the right as the
/// characters before it in that row take columns, but inside the pane.
pub proof fn cursor_is_drawn_at_its_column(
    lines: Seq<Seq<usize>>,
    body: Rect,
    scroll: int,
    row: int,
    col: int,
)
    requires
        countable(lines),
        0 <= row < lines.len(),
        0 <= col <= lines[row].len(),
        0 <= scroll,
        body.height > 0,
        body.width > 0,
        body.x + body.width <= 0x10000,
        body.y + body.height <= 0x10000,
    ensures
        ({
            let rows = wrapped(lines, body.width as int);
            let c = cursor_row(rows, row, col);
            let before = width::total(lines[row].subrange(rows[c].start as int, col));
            let place = cursor_place(lines, body, scroll, row, col);
            &&& scroll <= c < scroll + body.height <==> place is Some
            &&& place is Some ==> place->0.y == body.y + (c - scroll)
            &&& place is Some && before < body.width ==> place->0.x == body.x + before
            &&& place is Some && body.width <= before < 0x10000 ==> place->0.x == body.x
                + body.width - 1
        }),
{
    let rows = wrapped(lines, body.width as int);
    let c = cursor_row(rows, row, col);
    cursor_row_carries_the_cursor(lines, body.width as int, row, col);
    width::lemma_total_nonnegative(lines[row].subrange(rows[c].start as int, col));
}

/// The bar offers what can be done and nothing else: copying, clearing and
/// undoing always, emitting where the tab has an agent, and the choice of an
/// agent where there are two to choose from and one is chosen.
pub proof fn bar_offers_what_can_be_done(
    current: Option<agents::TargetView>,
    count: int,
    bar_width: int,
)
    requires
        bar_width >= 0,
    ensures
        ({
            let entries = bar_entries(current, count, bar_width);
            let n = entries.len();
            &&& n == 3 + (if count >= 1 {
                1int
            } else {
                0
            }) + (if count >= 2 && current is Some {
                1int
            } else {
                0
            })
            &&& entries[0] == (Action::Command(Command::Copy), "^C copy"@)
            &&& entries[1] == (Action::Command(Command::Clear), "^L clear"@)
            &&& entries[2] == (Action::Command(Command::Undo), "^Z undo"@)
            &&& count >= 1 ==> entries[3] == (Action::Command(Command::Send), "^E emit to agent"@)
            &&& count >= 2 && current is Some ==> entries[4].0 == Action::CycleTarget
                && entries[4].1 == agents::label_of(current->0, target_budget(bar_width))
            &&& target_budget(bar_width) >= 13 && target_budget(bar_width) >= bar_width / 3
            &&& target_budget(bar_width) == 13 || target_budget(bar_width) == bar_width / 3
        }),
{
}

/// A message takes the place of the buttons, and then none can be hit; without a
/// message every button that is drawn can be hit where it is drawn.
pub proof fn message_takes_the_place_of_the_buttons(
    bar: Rect,
    status: Option<Seq<char>>,
    current: Option<agents::TargetView>,
    count: int,
    k: int,
)
    requires
        bar.height > 0,
    ensures
        status matches Some(m) ==> bar_content(bar, status, current, count) == BarView::Message(m)
            && hit_zones(bar_content(bar, status, current, count)).len() == 0,
        status is None ==> {
            let items = bar_items(current, count, bar);
            let zones = hit_zones(bar_content(bar, status, current, count));
            &&& bar_content(bar, status, current, count) == BarView::Buttons(items)
            &&& zones.len() == items.len()
            &&& 0 <= k < items.len() ==> zones[k] == (items[k].action, items[k].rect)
        },
{
}

/// The hint stands in for an empty text alone, and never hides what takes a
/// column.
pub proof fn hint_hides_no_text(show_hint: bool, rows: Seq<TextRowView>)
    ensures
        hint_shown(show_hint, rows) ==> show_hint && rows.len() > 0 && (rows[0] matches TextRowView::Plain(
            s,
        ) ==> line_columns(s) == 0),
        show_hint && rows.len() > 0 && (rows[0] matches TextRowView::Plain(s) && line_columns(s)
            == 0) ==> hint_shown(show_hint, rows),
{
}

/// An empty line takes one row of its own, and wrapping never joins two lines:
/// each has at least one row.
pub proof fn no_line_vanishes(lines: Seq<Seq<usize>>, width: int, r: int)
    requires
        countable(lines),
        0 <= r < lines.len(),
    ensures
        exists|i: int|
            0 <= i < wrapped(lines, width).len() && (#[trigger] wrapped(lines, width)[i]).row == r,
        lines[r].len() == 0 ==> pieces(lines[r], r, 0, wrap_width(width)) == seq![
            VisualRow { row: r as usize, start: 0, end: 0 },
        ],
        width >= 1 ==> wrap_width(width) == width,
        width < 1 ==> wrap_width(width) == 1,
{
    let rows = wrapped(lines, width);
    let at = wrapped(lines.take(r), width).len() as int;
    let own = pieces(lines[r], r, 0, wrap_width(width));
    rows_follow_the_lines(lines, width, r);
    pieces_cover_the_line(lines[r], r, 0, wrap_width(width));
    assert(rows.subrange(at, at + own.len())[0] == rows[at]);
    assert(rows[at] == own[0]);
    if lines[r].len() == 0 {
        assert(own[0].end == 0) by {
            lemma_piece_end(lines[r], 0, wrap_width(width));
        }
        lemma_piece_end(lines[r], 0, wrap_width(width));
        assert(own =~= seq![VisualRow { row: r as usize, start: 0, end: 0 }]);
    }
}

/// A rectangle holds the places from its edges on, up to its width and height,
/// as far as coordinates go.
pub proof fn rectangles_hold_what_they_cover(r: Rect, pos: Position)
    requires
        r.x + r.width <= u16::MAX,
        r.y + r.height <= u16::MAX,
    ensures
        r.holds(pos) <==> r.x <= pos.x < r.x + r.width && r.y <= pos.y < r.y + r.height,
{
}

/// A click in the text zone finds a position of the text.
pub proof fn lemma_click_in_text(
    lines: Seq<Seq<usize>>,
    body: Rect,
    scroll: int,
    pos: Position,
)
    requires
        countable(lines),
        lines.len() > 0,
        0 <= scroll,
        body.holds(pos),
    ensures
        clicked(lines, body, scroll, pos) matches Some((row, col)) && 0 <= row < lines.len() && 0
            <= col <= lines[row].len(),
{
    let rows = wrapped(lines, body.width as int);
    lemma_rows_at_least_lines(lines, body.width as int);
    let k = row_under(rows.len() as int, body, scroll, pos);
    lemma_row_in_range(lines, body.width as int, k);
    let v = rows[k];
    let piece = lines[v.row as int].subrange(v.start as int, v.end as int);
    width::fit_is_the_longest_prefix(piece, pos.x - body.x);
}

} // verus!
