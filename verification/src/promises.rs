//! What the pane promises, told by the text, the cursor's place in it, and what
//! leaves the pane.
//!
//! Each promise speaks of what an event does for every state and every input,
//! without saying how.
use crate::agents;
use crate::agents::TargetView;
use crate::app;
use crate::app::{Action, AfterView, AppView, Command, EffectView};
use crate::buffer;
use crate::buffer::BufferView;
use crate::clipboard;
use crate::input::{KeyCode, KeyEvent, KeyEventKind, MouseButton, MouseEvent, MouseEventKind};
use crate::json;
use crate::json::JsonView;
use crate::state::StoreView;
use crate::text;
use crate::ui;
use crate::ui::Position;
use vstd::prelude::*;
use vstd::utf8::*;

verus! {

/// A key that goes down, or is held down, with control and without alt.
pub open spec fn commands(key: KeyEvent) -> bool {
    key.kind != KeyEventKind::Release && key.modifiers.control && !key.modifiers.alt
}

/// A key that goes down, or is held down, and is meant for the text: without
/// control, or with control and alt, which is how some keyboards type.
pub open spec fn edits(key: KeyEvent) -> bool {
    key.kind != KeyEventKind::Release && !(key.modifiers.control && !key.modifiers.alt)
}

/// A key event that is this letter, in either case.
pub open spec fn is_letter(key: KeyEvent, lower: char, upper: char) -> bool {
    key.code == KeyCode::Char(lower) || key.code == KeyCode::Char(upper)
}

/// A state that differs in its text and cursor at most, and has that change to
/// save since `now`.
pub open spec fn only_edited(v: AppView, w: AppView, now: u64) -> bool {
    w == AppView { buf: w.buf, dirty: true, last_edit: now, ..v }
}

/// A state that differs in where the cursor stands at most.
pub open spec fn only_moved(v: AppView, w: AppView) -> bool {
    w == AppView { buf: w.buf, ..v } && w.buf.valid() && w.buf.lines == v.buf.lines
        && w.buf.text() == v.buf.text()
}

/// A state with a message that was said at `now`.
pub open spec fn said_at(w: AppView, now: u64) -> bool {
    w.status matches Some((_, at)) && at == now
}

/// A state that differs in its message at most, which was said at `now`.
pub open spec fn only_said(v: AppView, w: AppView, now: u64) -> bool {
    w == AppView { status: w.status, ..v } && said_at(w, now)
}

/// Typing a character puts it at the cursor's place in the text, and the cursor
/// after it. Nothing else changes, and the change is to be saved.
pub proof fn typing_inserts_at_the_cursor(v: AppView, key: KeyEvent, c: char, now: u64)
    requires
        v.valid(),
        edits(key),
        key.code == KeyCode::Char(c),
    ensures
        v.key(key, now).0.valid(),
        v.key(key, now).0.buf.text() == v.buf.text().insert(v.buf.offset(), c),
        v.key(key, now).0.buf.offset() == v.buf.offset() + 1,
        only_edited(v, v.key(key, now).0, now),
        v.key(key, now).1 == EffectView::Nothing,
{
    lemma_inserted_char(v.buf, c);
}

/// Enter splits the line at the cursor: the text has one line break more, at the
/// cursor's place, and the cursor stands after it, at the start of a line.
pub proof fn enter_breaks_the_line_at_the_cursor(v: AppView, key: KeyEvent, now: u64)
    requires
        v.valid(),
        edits(key),
        key.code == KeyCode::Enter,
    ensures
        v.key(key, now).0.valid(),
        v.key(key, now).0.buf.text() == v.buf.text().insert(v.buf.offset(), '\n'),
        v.key(key, now).0.buf.offset() == v.buf.offset() + 1,
        only_edited(v, v.key(key, now).0, now),
        v.key(key, now).1 == EffectView::Nothing,
{
    lemma_inserted_char(v.buf, '\n');
}

proof fn lemma_inserted_char(b: BufferView, c: char)
    requires
        b.valid(),
    ensures
        b.inserted(text::split(seq![c])).valid(),
        b.inserted(text::split(seq![c])).text() == b.text().insert(b.offset(), c),
        b.inserted(text::split(seq![c])).offset() == b.offset() + 1,
{
    text::lemma_split(seq![c]);
    text::lemma_join_of_split(seq![c]);
    buffer::insertion_splices_text(b, text::split(seq![c]));
    buffer::lemma_around_cursor(b);
    assert(b.text().take(b.offset()) + seq![c] + b.text().skip(b.offset()) =~= b.text().insert(
        b.offset(),
        c,
    ));
}

/// Backspace removes the one character before the cursor, delete the one after
/// it; neither does anything to the text where there is none.
pub proof fn erasing_removes_one_character(v: AppView, key: KeyEvent, now: u64)
    requires
        v.valid(),
        edits(key),
        key.code == KeyCode::Backspace || key.code == KeyCode::Delete,
    ensures
        ({
            let w = v.key(key, now).0;
            let at = v.buf.offset();
            let whole = v.buf.text();
            &&& w.valid()
            &&& key.code == KeyCode::Backspace && at > 0 ==> w.buf.text() == whole.remove(at - 1)
                && w.buf.offset() == at - 1
            &&& key.code == KeyCode::Delete && at < whole.len() ==> w.buf.text() == whole.remove(at)
                && w.buf.offset() == at
            &&& key.code == KeyCode::Backspace && at == 0 ==> w.buf == v.buf
            &&& key.code == KeyCode::Delete && at == whole.len() ==> w.buf == v.buf
            &&& only_edited(v, w, now)
            &&& v.key(key, now).1 == EffectView::Nothing
        }),
{
    let b = v.buf;
    buffer::lemma_around_cursor(b);
    buffer::backspace_removes_previous_character(b);
    buffer::deletion_removes_next_character(b);
    if b.offset() == 0 {
        buffer::text_and_offset_determine_buffer(b.backspaced(), b);
    }
    if b.offset() == b.text().len() {
        buffer::text_and_offset_determine_buffer(b.deleted(), b);
    }
}

/// The arrows left and right move the cursor by one character of the text, home
/// and end to where its line begins and ends. The text stays, and so does all
/// else.
pub proof fn keys_move_along_the_text(v: AppView, key: KeyEvent, now: u64)
    requires
        v.valid(),
        edits(key),
        key.code == KeyCode::Left || key.code == KeyCode::Right || key.code == KeyCode::Home
            || key.code == KeyCode::End,
    ensures
        ({
            let w = v.key(key, now).0;
            let at = v.buf.offset();
            let whole = v.buf.text();
            &&& only_moved(v, w)
            &&& v.key(key, now).1 == EffectView::Nothing
            &&& key.code == KeyCode::Left && at > 0 ==> w.buf.offset() == at - 1
            &&& key.code == KeyCode::Left && at == 0 ==> w.buf.offset() == 0
            &&& key.code == KeyCode::Right && at < whole.len() ==> w.buf.offset() == at + 1
            &&& key.code == KeyCode::Right && at == whole.len() ==> w.buf.offset() == at
            &&& key.code == KeyCode::Home ==> buffer::begins_line(whole, w.buf.offset(), at)
            &&& key.code == KeyCode::End ==> buffer::ends_line(whole, w.buf.offset(), at)
        }),
{
    buffer::lemma_around_cursor(v.buf);
    buffer::left_moves_one_character(v.buf);
    buffer::right_moves_one_character(v.buf);
    buffer::columns_bound_the_line(v.buf);
}

/// How many lines a key moves down; up where negative.
pub open spec fn lines_down(v: AppView, code: KeyCode) -> int {
    let page = if v.body.height > 0 {
        v.body.height as int
    } else {
        10
    };
    if code == KeyCode::Up {
        -1
    } else if code == KeyCode::Down {
        1
    } else if code == KeyCode::PageUp {
        -page
    } else {
        page
    }
}

/// The arrows up and down move by one line, page up and page down by as many as
/// the text zone is high, or ten before anything was drawn; never beyond the
/// first and the last line. The column stays, or is the last of a shorter line.
/// The text stays, and so does all else.
pub proof fn keys_move_by_lines(v: AppView, key: KeyEvent, now: u64)
    requires
        v.valid(),
        edits(key),
        key.code == KeyCode::Up || key.code == KeyCode::Down || key.code == KeyCode::PageUp
            || key.code == KeyCode::PageDown,
    ensures
        ({
            let w = v.key(key, now).0;
            let goal = v.buf.row + lines_down(v, key.code);
            let last = v.buf.lines.len() - 1;
            &&& only_moved(v, w)
            &&& v.key(key, now).1 == EffectView::Nothing
            &&& 0 <= goal <= last ==> w.buf.row == goal
            &&& goal < 0 ==> w.buf.row == 0
            &&& goal > last ==> w.buf.row == last
            &&& v.buf.col <= v.buf.lines[w.buf.row].len() ==> w.buf.col == v.buf.col
            &&& v.buf.col > v.buf.lines[w.buf.row].len() ==> w.buf.col
                == v.buf.lines[w.buf.row].len()
        }),
{
}

/// Keys without a meaning, and keys that are let go, do nothing at all.
pub proof fn other_keys_do_nothing(v: AppView, key: KeyEvent, now: u64)
    requires
        key.kind == KeyEventKind::Release || key.code == KeyCode::Esc || key.code == KeyCode::Other
            || (commands(key) && (key.code == KeyCode::Enter || key.code == KeyCode::Delete
            || key.code == KeyCode::Up || key.code == KeyCode::Down || key.code == KeyCode::PageUp
            || key.code == KeyCode::PageDown)),
    ensures
        v.key(key, now) == (v, EffectView::Nothing),
{
}

/// A key that is held down does what it does when it goes down, and shift changes
/// nothing: what it changes of a letter is in the letter.
pub proof fn repetition_and_shift_make_no_difference(
    v: AppView,
    key: KeyEvent,
    other: KeyEvent,
    now: u64,
)
    requires
        key.kind != KeyEventKind::Release,
        other.kind != KeyEventKind::Release,
        key.code == other.code,
        key.modifiers.control == other.modifiers.control,
        key.modifiers.alt == other.modifiers.alt,
    ensures
        v.key(key, now) == v.key(other, now),
{
}

proof fn lemma_at_offset(b: BufferView, at: int)
    requires
        b.valid(),
        0 <= at <= b.text().len(),
    ensures
        buffer::buffer_at(b.text(), at).valid(),
        buffer::buffer_at(b.text(), at).text() == b.text(),
        buffer::buffer_at(b.text(), at).lines == b.lines,
        buffer::buffer_at(b.text(), at).offset() == at,
{
    let w = buffer::lemma_reaches(b, at);
    buffer::lemma_buffer_at(w);
    text::lemma_split_of_join(w.lines);
    text::lemma_split_of_join(b.lines);
}

/// With control, the arrows left and right move to where the word before the
/// cursor begins and the word after it ends, home and end to the two ends of the
/// text. The text stays, and so does all else.
pub proof fn control_moves_by_words_and_to_the_ends(v: AppView, key: KeyEvent, now: u64)
    requires
        v.valid(),
        commands(key),
        key.code == KeyCode::Left || key.code == KeyCode::Right || key.code == KeyCode::Home
            || key.code == KeyCode::End,
    ensures
        ({
            let w = v.key(key, now).0;
            let at = v.buf.offset();
            let whole = v.buf.text();
            &&& only_moved(v, w)
            &&& v.key(key, now).1 == EffectView::Nothing
            &&& key.code == KeyCode::Left ==> buffer::begins_word(whole, w.buf.offset(), at)
            &&& key.code == KeyCode::Right ==> buffer::ends_word(whole, w.buf.offset(), at)
            &&& key.code == KeyCode::Home ==> w.buf.offset() == 0
            &&& key.code == KeyCode::End ==> w.buf.offset() == whole.len()
        }),
{
    let b = v.buf;
    buffer::lemma_around_cursor(b);
    buffer::lemma_word_bounds(b.text(), b.offset());
    buffer::words_are_bounded_by_blanks(b.text(), b.offset());
    lemma_at_offset(b, buffer::word_start(b.text(), b.offset()));
    lemma_at_offset(b, buffer::word_end(b.text(), b.offset()));
    lemma_at_offset(b, 0);
    lemma_at_offset(b, b.text().len() as int);
}

/// Control with backspace, or with `h`, removes the text from where the word
/// before the cursor begins up to the cursor, and nothing else of it.
pub proof fn control_erases_the_word_before_the_cursor(v: AppView, key: KeyEvent, now: u64)
    requires
        v.valid(),
        commands(key),
        key.code == KeyCode::Backspace || is_letter(key, 'h', 'H'),
    ensures
        ({
            let w = v.key(key, now).0;
            let at = v.buf.offset();
            let whole = v.buf.text();
            &&& w.valid()
            &&& buffer::begins_word(whole, w.buf.offset(), at)
            &&& w.buf.text() == whole.take(w.buf.offset()) + whole.skip(at)
            &&& only_edited(v, w, now)
            &&& v.key(key, now).1 == EffectView::Nothing
        }),
{
    let b = v.buf;
    let start = buffer::word_start(b.text(), b.offset());
    let kept = b.text().take(start) + b.text().skip(b.offset());
    buffer::lemma_around_cursor(b);
    buffer::lemma_word_bounds(b.text(), b.offset());
    buffer::words_are_bounded_by_blanks(b.text(), b.offset());
    let u = app::buffer_of(kept);
    text::lemma_split(kept);
    text::lemma_join_of_split(kept);
    assert(u.valid() && u.text() == kept);
    lemma_at_offset(u, start);
}

/// Whether a state asks for nothing but a save of this text, where it has a place
/// to save it.
pub open spec fn saves(v: AppView, effect: EffectView, text: Seq<char>) -> bool {
    v.store is Some ==> (effect matches EffectView::Save { text: saved, .. } && saved == text)
}

/// Sending takes the whole text and the agent on display, whatever the cursor and
/// wherever it stands: a pane with a text and an agent always asks for that agent
/// to send that text to, and changes nothing yet. Only a pane without a text, or
/// without an agent, refuses, and says so.
pub proof fn sending_takes_the_whole_text_to_the_agent_on_display(
    v: AppView,
    key: KeyEvent,
    now: u64,
)
    requires
        v.valid(),
        commands(key),
        is_letter(key, 'e', 'E'),
    ensures
        v.buf.text().len() > 0 && v.current() is Some ==> v.key(key, now) == (
            v,
            EffectView::ListAgents { intended: v.current()->0.pane_id, text: v.buf.text() },
        ),
        v.buf.text().len() == 0 || v.current() is None ==> only_said(v, v.key(key, now).0, now)
            && v.key(key, now).1 == EffectView::Nothing,
{
}

/// The agent on display is the chosen one of the list.
pub proof fn chosen_agent_is_on_display(v: AppView, i: usize)
    ensures
        v.target == Some(i) && i < v.targets.len() ==> v.current() == Some(v.targets[i as int]),
        v.target is None ==> v.current() is None,
        v.target == Some(i) && i >= v.targets.len() ==> v.current() is None,
{
}

proof fn lemma_found(targets: Seq<TargetView>, pane_id: Seq<char>, from: int, k: int)
    requires
        0 <= from <= k < targets.len() <= usize::MAX,
        targets[k].pane_id == pane_id,
    ensures
        app::index_from(targets, pane_id, from) is Some,
        app::index_from(targets, pane_id, from)->0 < targets.len(),
        targets[app::index_from(targets, pane_id, from)->0 as int].pane_id == pane_id,
    decreases k - from,
{
    if targets[from].pane_id != pane_id {
        lemma_found(targets, pane_id, from + 1, k);
    }
}

/// The text is handed to the agent that was meant whenever the server lists it in
/// this tab, and the pane keeps its text meanwhile.
pub proof fn listed_agent_gets_the_text(
    v: AppView,
    parsed: Option<JsonView>,
    i: int,
    intended: Seq<char>,
    text: Seq<char>,
    now: u64,
)
    requires
        v.refreshed(Some(parsed)).targets.len() <= usize::MAX,
        v.tab_id is Some && v.tab_id->0.len() > 0,
        v.pane_id != Some(intended),
        intended.len() > 0,
        json::result_list(parsed, "agents"@) matches Some(list) && 0 <= i < list.len()
            && list[i].field("tab_id"@) == v.tab_id && list[i].field("pane_id"@) == Some(intended),
    ensures
        v.listed(Some(parsed), intended, text, now).1 matches EffectView::Deliver {
            target,
            text: sent,
        } && target.pane_id == intended && sent == text,
        v.listed(Some(parsed), intended, text, now).0.buf == v.buf,
        v.listed(Some(parsed), intended, text, now).0.stash == v.stash,
{
    let list = json::result_list(parsed, "agents"@)->0;
    let next = v.refreshed(Some(parsed));
    agents::every_agent_of_the_tab_is_a_target(parsed, v.tab_id, v.pane_id, i);
    let t = choose|t: TargetView| #[trigger]
        next.targets.contains(t) && t.pane_id == intended;
    let k = choose|k: int| 0 <= k < next.targets.len() && next.targets[k] == t;
    lemma_found(next.targets, intended, 0, k);
}

/// An agent the server does not list gets nothing: the pane says so, and keeps
/// its text.
pub proof fn missing_agent_gets_nothing(
    v: AppView,
    reply: Option<Option<JsonView>>,
    intended: Seq<char>,
    text: Seq<char>,
    now: u64,
)
    requires
        v.refreshed(reply).targets.len() <= usize::MAX,
        forall|k: int|
            0 <= k < v.refreshed(reply).targets.len() ==> (#[trigger] v.refreshed(
                reply,
            ).targets[k]).pane_id != intended,
    ensures
        v.listed(reply, intended, text, now).1 == EffectView::Nothing,
        only_said(v.refreshed(reply), v.listed(reply, intended, text, now).0, now),
        v.listed(reply, intended, text, now).0.buf == v.buf,
        v.listed(reply, intended, text, now).0.stash == v.stash,
{
    lemma_not_found(v.refreshed(reply).targets, intended, 0);
}

proof fn lemma_not_found(targets: Seq<TargetView>, pane_id: Seq<char>, from: int)
    requires
        0 <= from,
        forall|k: int| 0 <= k < targets.len() ==> (#[trigger] targets[k]).pane_id != pane_id,
    ensures
        app::index_from(targets, pane_id, from) is None,
    decreases targets.len() - from,
{
    if from < targets.len() {
        lemma_not_found(targets, pane_id, from + 1);
    }
}

/// Once an agent took the text, the pane is empty, one undo away from the text,
/// and the empty text is saved; what else the pane knows stays.
pub proof fn taken_text_leaves_the_pane_empty(
    v: AppView,
    target: TargetView,
    text: Seq<char>,
    now: u64,
)
    ensures
        ({
            let (w, effect) = v.delivered(Ok(()), target, text, now);
            &&& w.buf.valid() && w.buf.text().len() == 0
            &&& w.stash == Some(text)
            &&& saves(v, effect, Seq::empty())
            &&& v.store is None ==> effect == EffectView::Focus { pane_id: target.pane_id }
            &&& w.scroll == 0
            &&& w.targets == v.targets && w.target == v.target && w.store == v.store
            &&& w.pane_id == v.pane_id && w.tab_id == v.tab_id
        }),
{
    lemma_blank();
}

proof fn lemma_blank()
    ensures
        app::blank_buffer().valid(),
        app::blank_buffer().text() == Seq::<char>::empty(),
        app::blank_buffer().offset() == 0,
{
    text::lemma_terminated_one(Seq::empty());
    assert(app::blank_buffer().text() =~= Seq::<char>::empty());
    buffer::lemma_around_cursor(app::blank_buffer());
}

/// Copying takes the whole text: what goes to the terminal is the clipboard
/// sequence around a payload that decodes to the bytes of the text, all of them,
/// and their number goes with it. The pane does not change. Only an empty text
/// and one of more than 192 kilobytes are refused, and the pane says so.
pub proof fn copying_takes_the_whole_text(v: AppView, key: KeyEvent, now: u64)
    requires
        v.valid(),
        commands(key),
        is_letter(key, 'c', 'C'),
    ensures
        ({
            let whole = v.buf.text();
            let bytes = encode_utf8(whole);
            let (w, effect) = v.key(key, now);
            &&& 0 < whole.len() && bytes.len() <= 192 * 1024 ==> {
                &&& w == v
                &&& effect matches EffectView::Copy { sequence, len } && {
                    &&& len == bytes.len()
                    &&& sequence.len() >= 8
                    &&& sequence.take(7) == "\x1b]52;c;"@
                    &&& sequence.last() == '\x07'
                    &&& clipboard::decoded(sequence.subrange(7, sequence.len() - 1)) == bytes
                }
            }
            &&& whole.len() == 0 || bytes.len() > 192 * 1024 ==> only_said(v, w, now) && effect
                == EffectView::Nothing
        }),
{
    clipboard::sequence_carries_the_bytes(encode_utf8(v.buf.text()));
}

/// Exporting takes the whole text, even an empty one, and changes nothing.
pub proof fn exporting_takes_the_whole_text(v: AppView, key: KeyEvent, now: u64)
    requires
        commands(key),
        is_letter(key, 's', 'S'),
    ensures
        v.key(key, now) == (v, EffectView::Export { text: v.buf.text() }),
{
}

/// Clearing empties the pane, moves the whole text aside, and saves the empty
/// text. A pane without a text keeps what it had moved aside.
pub proof fn clearing_moves_the_whole_text_aside(v: AppView, key: KeyEvent, now: u64)
    requires
        v.valid(),
        commands(key),
        is_letter(key, 'l', 'L'),
    ensures
        ({
            let (w, effect) = v.key(key, now);
            &&& v.buf.text().len() > 0 ==> {
                &&& w.valid() && w.buf.text().len() == 0
                &&& w.stash == Some(v.buf.text())
                &&& w.scroll == 0
                &&& saves(v, effect, Seq::empty())
                &&& v.store is None ==> effect == EffectView::Nothing
                &&& w.targets == v.targets && w.target == v.target && w.store == v.store
            }
            &&& v.buf.text().len() == 0 ==> only_said(v, w, now) && effect == EffectView::Nothing
        }),
{
    lemma_blank();
}

/// Undoing brings back the whole text that was moved aside, with the cursor at
/// its end, and saves it; it can be done once. With nothing moved aside it leaves
/// the text alone.
pub proof fn undoing_brings_back_what_was_moved_aside(v: AppView, key: KeyEvent, now: u64)
    requires
        v.valid(),
        commands(key),
        is_letter(key, 'z', 'Z'),
    ensures
        ({
            let (w, effect) = v.key(key, now);
            &&& v.stash matches Some(text) ==> {
                &&& w.valid() && w.buf.text() == text && w.buf.offset() == text.len()
                &&& w.stash is None
                &&& saves(v, effect, text)
                &&& v.store is None ==> effect == EffectView::Nothing
                &&& w.targets == v.targets && w.target == v.target && w.store == v.store
            }
            &&& v.stash is None ==> only_said(v, w, now) && effect == EffectView::Nothing
        }),
{
    if let Some(text) = v.stash {
        text::lemma_split(text);
        text::lemma_join_of_split(text);
        buffer::lemma_around_cursor(app::buffer_of(text));
    }
}

/// Control with `n` chooses the next agent of the list, and the first after the
/// last one; where there are fewer than two, it does nothing. Nothing else
/// changes.
pub proof fn cycling_chooses_the_next_agent(v: AppView, key: KeyEvent, now: u64)
    requires
        commands(key),
        is_letter(key, 'n', 'N'),
        v.targets.len() <= usize::MAX,
    ensures
        ({
            let (w, effect) = v.key(key, now);
            let n = v.targets.len();
            &&& effect == EffectView::Nothing
            &&& w == AppView { target: w.target, ..v }
            &&& n < 2 ==> w == v
            &&& n >= 2 && v.target is Some && v.target->0 + 1 < n ==> w.target is Some
                && w.target->0 == v.target->0 + 1
            &&& n >= 2 && (v.target is None || v.target->0 + 1 >= n) ==> w.target == Some(0usize)
        }),
{
}

/// The state file is taken up as it is: a pane with nothing to save, whose file
/// has changed, shows the whole text of the file, whatever it showed before. The
/// cursor stays on its line and column as far as they exist, and the change is
/// not told again.
pub proof fn changed_file_takes_the_place_of_the_text(
    v: AppView,
    modified: Option<i128>,
    content: Seq<char>,
)
    requires
        v.valid(),
        !v.dirty,
        v.store is Some,
        v.store->0.seen != modified,
    ensures
        ({
            let w = v.after_watch(modified, content);
            &&& w.valid()
            &&& w.buf.text() == content
            &&& w.store == Some(StoreView { seen: modified, ..v.store->0 })
            &&& w == AppView { buf: w.buf, store: w.store, ..v }
            &&& v.buf.row < w.buf.lines.len() ==> w.buf.row == v.buf.row
            &&& v.buf.row >= w.buf.lines.len() ==> w.buf.row == w.buf.lines.len() - 1
            &&& v.buf.col <= w.buf.line().len() ==> w.buf.col == v.buf.col
            &&& v.buf.col > w.buf.line().len() ==> w.buf.col == w.buf.line().len()
        }),
{
    text::lemma_split(content);
    text::lemma_join_of_split(content);
    text::lemma_split_of_join(v.buf.lines);
}

/// A message is shown for three seconds, and no longer.
pub proof fn messages_last_three_seconds(v: AppView, message: Seq<char>, at: u64, now: u64)
    requires
        at <= now,
    ensures
        now - at < 3_000_000_000 ==> v.say(message, at).shown_status(now) == Some(message),
        now - at >= 3_000_000_000 ==> v.say(message, at).shown_status(now) is None,
        v.say(message, at) == (AppView { status: v.say(message, at).status, ..v }),
{
}

/// What is typed is saved half a second after the last keystroke, the whole text
/// of it, and not before.
pub proof fn typing_is_saved_after_half_a_second(v: AppView, now: u64)
    requires
        v.last_edit <= now,
    ensures
        now - v.last_edit < 500_000_000 || !v.dirty ==> v.autosaved(now) == (
            v,
            EffectView::Nothing,
        ),
        now - v.last_edit >= 500_000_000 && v.dirty && v.store is Some ==> v.autosaved(now).0 == v
            && v.autosaved(now).1 == (EffectView::Save {
            text: v.buf.text(),
            after: AfterView::Nothing,
        }),
{
}

/// A save writes the whole text, and is asked for whenever the text has changed
/// and there is a place to save it. The text is taken for saved once the save
/// succeeded, never before; the time of the file is remembered.
pub proof fn saves_write_the_whole_text(
    v: AppView,
    outcome: Result<Option<i128>, Seq<char>>,
    after: AfterView,
    now: u64,
)
    ensures
        v.dirty && v.store is Some ==> v.flushed(after, now) == (
            v,
            EffectView::Save { text: v.buf.text(), after },
        ),
        !v.dirty && after == AfterView::Nothing ==> v.flushed(after, now) == (
            v,
            EffectView::Nothing,
        ),
        v.flushed(after, now).0.buf == v.buf && v.flushed(after, now).0.stash == v.stash,
        ({
            let w = v.after_save(outcome, after, now).0;
            &&& w.buf == v.buf && w.stash == v.stash
            &&& outcome is Ok ==> !w.dirty
            &&& outcome is Err ==> w.dirty == v.dirty && w.store == v.store
            &&& outcome is Err && after == AfterView::Nothing ==> said_at(w, now)
            &&& outcome matches Ok(m) ==> (v.store matches Some(s) ==> w.store == Some(
                StoreView { seen: m, ..s },
            ))
        }),
{
}

/// The clocks of the pane: the file is looked at every seven tenths of a second
/// while there is nothing to save, the agents are asked for every two and a half
/// seconds, and the pane is stamped every five. What falls due starts its clock
/// anew, and nothing else changes.
pub proof fn chores_fall_due_by_the_clock(v: AppView, now: u64)
    requires
        v.last_watch <= now,
        v.last_targets <= now,
        v.last_beat <= now,
    ensures
        now - v.last_watch < 700_000_000 ==> v.watch(now) == (v, EffectView::Nothing),
        now - v.last_watch >= 700_000_000 ==> v.watch(now).0 == (AppView { last_watch: now, ..v })
            && (v.watch(now).1 == EffectView::Watch <==> !v.dirty && v.store is Some) && (v.watch(
            now,
        ).1 == EffectView::Watch || v.watch(now).1 == EffectView::Nothing),
        now - v.last_targets < 2_500_000_000 ==> v.refresh_due(now) == (v, EffectView::Nothing),
        now - v.last_targets >= 2_500_000_000 ==> v.refresh_due(now) == (
            AppView { last_targets: now, ..v },
            EffectView::Refresh,
        ),
        now - v.last_beat < 5_000_000_000 ==> v.beat(now) == (v, EffectView::Nothing),
        now - v.last_beat >= 5_000_000_000 ==> v.beat(now).0 == (AppView { last_beat: now, ..v }),
        now - v.last_beat >= 5_000_000_000 ==> (v.pane_id matches Some(id) ==> v.beat(now).1
            == EffectView::Stamp { pane_id: id }),
        v.pane_id is None ==> v.beat(now).1 == EffectView::Nothing,
{
}

/// An answer of the server that can be read replaces the list of agents by those
/// it lists in this tab; the chosen one stays chosen while it is listed, and else
/// the first is. Nothing else changes, and no answer changes nothing.
pub proof fn refresh_takes_the_agents_of_the_tab(v: AppView, parsed: Option<JsonView>)
    requires
        v.refreshed(Some(parsed)).targets.len() <= usize::MAX,
    ensures
        ({
            let w = v.refreshed(Some(parsed));
            let n = w.targets.len();
            &&& w == AppView { targets: w.targets, target: w.target, ..v }
            &&& w.targets == agents::targets_in(parsed, v.tab_id, v.pane_id)
            &&& n == 0 ==> w.target is None
            &&& n > 0 ==> w.target is Some && w.target->0 < n
            &&& n > 0 && w.target->0 != 0 ==> v.current() is Some
                && w.targets[w.target->0 as int].pane_id == v.current()->0.pane_id
        }),
        v.refreshed(None) == v,
{
    let w = v.refreshed(Some(parsed));
    if let Some(t) = v.current() {
        if exists|k: int| 0 <= k < w.targets.len() && (#[trigger] w.targets[k]).pane_id == t.pane_id {
            let k = choose|k: int|
                0 <= k < w.targets.len() && (#[trigger] w.targets[k]).pane_id == t.pane_id;
            lemma_found(w.targets, t.pane_id, 0, k);
        } else {
            lemma_not_found(w.targets, t.pane_id, 0);
        }
    }
}

/// A left click, without shift.
pub open spec fn clicks(ev: MouseEvent) -> bool {
    ev.kind == MouseEventKind::Down(MouseButton::Left) && !ev.modifiers.shift
}

/// Whether a place lies on no button.
pub open spec fn beside_the_buttons(v: AppView, pos: Position) -> bool {
    forall|k: int| 0 <= k < v.buttons.len() ==> !(#[trigger] v.buttons[k]).1.holds(pos)
}

proof fn lemma_no_button(v: AppView, pos: Position, i: int)
    requires
        0 <= i,
        beside_the_buttons(v, pos),
    ensures
        app::button_at(v.buttons, pos, i) is None,
    decreases v.buttons.len() - i,
{
    if i < v.buttons.len() {
        assert(!v.buttons[i].1.holds(pos));
        lemma_no_button(v, pos, i + 1);
    }
}

/// A click in the text zone puts the cursor before the character that is drawn
/// under it; beside the text zone and the buttons it does nothing. The text
/// stays, and so does all else.
pub proof fn click_puts_the_cursor_where_it_fell(v: AppView, ev: MouseEvent, now: u64)
    requires
        v.valid(),
        clicks(ev),
        ui::countable(ui::line_widths(v.buf.lines)),
        beside_the_buttons(v, Position { x: ev.column, y: ev.row }),
    ensures
        ({
            let pos = Position { x: ev.column, y: ev.row };
            let (w, effect) = v.mouse(ev, now);
            let place = ui::clicked(
                ui::line_widths(v.buf.lines),
                v.body,
                v.scroll as int,
                pos,
            );
            &&& effect == EffectView::Nothing
            &&& only_moved(v, w)
            &&& place matches Some((row, col)) ==> w.buf.row == row && w.buf.col == col
            &&& place is None ==> w == v
            &&& v.body.holds(pos) ==> place is Some
        }),
{
    let pos = Position { x: ev.column, y: ev.row };
    let ws = ui::line_widths(v.buf.lines);
    lemma_no_button(v, pos, 0);
    ui::lemma_rows_at_least_lines(ws, v.body.width as int);
    if v.body.holds(pos) {
        ui::lemma_click_in_text(ws, v.body, v.scroll as int, pos);
        assert(ui::clicked(ws, v.body, v.scroll as int, pos) matches Some((row, col))
            && ws[row].len() == v.buf.lines[row].len());
    }
}

proof fn lemma_button_hit(v: AppView, pos: Position, i: int, k: int)
    requires
        0 <= i <= k < v.buttons.len(),
        v.buttons[k].1.holds(pos),
        forall|j: int| 0 <= j < k ==> !(#[trigger] v.buttons[j]).1.holds(pos),
    ensures
        app::button_at(v.buttons, pos, i) == Some(v.buttons[k].0),
    decreases k - i,
{
    if i < k {
        assert(!v.buttons[i].1.holds(pos));
        lemma_button_hit(v, pos, i + 1, k);
    }
}

/// The letter whose control key does what a button does.
pub open spec fn key_of(action: Action) -> char {
    match action {
        Action::Command(Command::Send) => 'e',
        Action::Command(Command::Copy) => 'c',
        Action::Command(Command::Clear) => 'l',
        Action::Command(Command::Export) => 's',
        Action::Command(Command::Undo) => 'z',
        Action::CycleTarget => 'n',
    }
}

/// A click on a button does what its control key does.
pub proof fn button_does_what_its_key_does(
    v: AppView,
    ev: MouseEvent,
    key: KeyEvent,
    k: int,
    now: u64,
)
    requires
        clicks(ev),
        0 <= k < v.buttons.len(),
        v.buttons[k].1.holds(Position { x: ev.column, y: ev.row }),
        forall|j: int|
            0 <= j < k ==> !(#[trigger] v.buttons[j]).1.holds(
                Position { x: ev.column, y: ev.row },
            ),
        commands(key),
        key.code == KeyCode::Char(key_of(v.buttons[k].0)),
    ensures
        v.mouse(ev, now) == v.key(key, now),
{
    lemma_button_hit(v, Position { x: ev.column, y: ev.row }, 0, k);
}

/// The wheel moves the view by three rows, and no further than the text goes.
/// Nothing else changes.
pub proof fn wheel_moves_the_view_by_three_rows(v: AppView, ev: MouseEvent, now: u64)
    requires
        !ev.modifiers.shift,
        ev.kind == MouseEventKind::ScrollUp || ev.kind == MouseEventKind::ScrollDown,
    ensures
        ({
            let (w, effect) = v.mouse(ev, now);
            let room = v.total_rows - v.body.height;
            &&& effect == EffectView::Nothing
            &&& w == AppView { scroll: w.scroll, ..v }
            &&& ev.kind == MouseEventKind::ScrollUp && v.scroll >= 3 ==> w.scroll == v.scroll - 3
            &&& ev.kind == MouseEventKind::ScrollUp && v.scroll < 3 ==> w.scroll == 0
            &&& ev.kind == MouseEventKind::ScrollDown && v.scroll + 3 <= room ==> w.scroll
                == v.scroll + 3
            &&& ev.kind == MouseEventKind::ScrollDown && v.scroll + 3 > room && room >= 0
                ==> w.scroll == room
            &&& ev.kind == MouseEventKind::ScrollDown && room < 0 ==> w.scroll == 0
        }),
{
}

/// The wheel is seen to move the text: what it set is drawn, as long as the
/// cursor is in sight from there.
pub proof fn wheel_is_seen_while_the_cursor_is_in_sight(
    v: AppView,
    ev: MouseEvent,
    cursor: int,
    now: u64,
)
    requires
        !ev.modifiers.shift,
        ev.kind == MouseEventKind::ScrollUp || ev.kind == MouseEventKind::ScrollDown,
        v.body.height > 0,
        0 <= cursor < v.total_rows,
        v.scroll + v.body.height <= v.total_rows || v.scroll == 0,
    ensures
        ({
            let w = v.mouse(ev, now).0;
            let height = v.body.height as int;
            w.scroll <= cursor < w.scroll + height ==> ui::scrolled(
                w.scroll as int,
                v.total_rows as int,
                height,
                cursor,
            ) == w.scroll
        }),
{
}

/// A mouse event with shift, or one that is neither a left click nor a turn of
/// the wheel, does nothing.
pub proof fn other_mouse_events_do_nothing(v: AppView, ev: MouseEvent, now: u64)
    requires
        ev.modifiers.shift || (ev.kind != MouseEventKind::Down(MouseButton::Left) && ev.kind
            != MouseEventKind::ScrollUp && ev.kind != MouseEventKind::ScrollDown),
    ensures
        v.mouse(ev, now) == (v, EffectView::Nothing),
{
}

/// From the key to the agent: a pane with a text, whose agent on display is still
/// listed in this tab and takes the text, hands over the whole text to that agent
/// and no other, is empty afterwards, gives that agent the focus in the end, and
/// is one undo away from the text.
pub proof fn whole_text_reaches_the_agent_on_display(
    v: AppView,
    send: KeyEvent,
    undo: KeyEvent,
    parsed: Option<JsonView>,
    i: int,
    outcome: Result<Option<i128>, Seq<char>>,
    t1: u64,
    t2: u64,
    t3: u64,
    t4: u64,
    t5: u64,
)
    requires
        v.valid(),
        commands(send) && is_letter(send, 'e', 'E'),
        commands(undo) && is_letter(undo, 'z', 'Z'),
        v.buf.text().len() > 0,
        v.current() is Some,
        v.current()->0.pane_id.len() > 0,
        v.pane_id != Some(v.current()->0.pane_id),
        v.tab_id is Some && v.tab_id->0.len() > 0,
        v.refreshed(Some(parsed)).targets.len() <= usize::MAX,
        json::result_list(parsed, "agents"@) matches Some(list) && 0 <= i < list.len()
            && list[i].field("tab_id"@) == v.tab_id && list[i].field("pane_id"@) == Some(
            v.current()->0.pane_id,
        ),
    ensures
        ({
            let text = v.buf.text();
            let meant = v.current()->0.pane_id;
            let (a, first) = v.key(send, t1);
            first matches EffectView::ListAgents { intended, text: asked } && {
                let (b, second) = a.listed(Some(parsed), intended, asked, t2);
                second matches EffectView::Deliver { target, text: sent } && {
                    let (c, third) = b.delivered(Ok(()), target, sent, t3);
                    let (d, last) = match third {
                        EffectView::Save { after, .. } => c.after_save(outcome, after, t4),
                        other => (c, other),
                    };
                    &&& intended == meant && target.pane_id == meant && sent == text
                    &&& b.buf == v.buf
                    &&& d.buf.text().len() == 0
                    &&& last == EffectView::Focus { pane_id: meant }
                    &&& d.key(undo, t5).0.buf.text() == text
                }
            }
        }),
{
    let text = v.buf.text();
    let meant = v.current()->0.pane_id;
    sending_takes_the_whole_text_to_the_agent_on_display(v, send, t1);
    listed_agent_gets_the_text(v, parsed, i, meant, text, t2);
    let b = v.listed(Some(parsed), meant, text, t2).0;
    lemma_blank();
    text::lemma_join_of_split(text);
}

/// An agent that is in the list, brought up to date or left as it was for want of
/// an answer, gets the text that was meant for it.
pub proof fn known_agent_gets_the_text(
    v: AppView,
    reply: Option<Option<JsonView>>,
    k: int,
    intended: Seq<char>,
    text: Seq<char>,
    now: u64,
)
    requires
        0 <= k < v.refreshed(reply).targets.len() <= usize::MAX,
        v.refreshed(reply).targets[k].pane_id == intended,
    ensures
        v.listed(reply, intended, text, now).0 == v.refreshed(reply),
        v.listed(reply, intended, text, now).1 matches EffectView::Deliver { target, text: sent }
            && target.pane_id == intended && sent == text && v.refreshed(reply).targets.contains(
            target,
        ),
{
    let next = v.refreshed(reply);
    lemma_found(next.targets, intended, 0, k);
    let i = app::index_from(next.targets, intended, 0)->0;
    assert(next.targets.contains(next.targets[i as int]));
}

/// What came of a copy and of an export is told, and changes nothing else: how
/// much was copied, where the export went, or what went wrong.
pub proof fn outcomes_are_told(
    v: AppView,
    len: int,
    copied: Result<(), Seq<char>>,
    exported: Result<Seq<char>, Seq<char>>,
    now: u64,
)
    ensures
        only_said(v, v.after_copy(len, copied, now), now),
        only_said(v, v.after_export(exported, now), now),
        copied is Ok ==> v.after_copy(len, copied, now).status == Some(
            ("copied · "@ + app::size_text(len), now),
        ),
        copied matches Err(e) ==> v.after_copy(len, copied, now).status == Some(
            ("copy failed: "@ + e, now),
        ),
        exported matches Ok(path) ==> v.after_export(exported, now).status == Some((path, now)),
        exported matches Err(e) ==> v.after_export(exported, now).status == Some(
            ("export failed: "@ + e, now),
        ),
{
}

/// What was to follow a save follows it, however the save went: the message is
/// said, and the focus goes where it was to go.
pub proof fn what_follows_a_save_follows(
    v: AppView,
    outcome: Result<Option<i128>, Seq<char>>,
    message: Seq<char>,
    pane: Seq<char>,
    now: u64,
)
    ensures
        ({
            let (w, effect) = v.after_save(outcome, AfterView::Say(message), now);
            w.status == Some((message, now)) && effect == EffectView::Nothing
        }),
        ({
            let after = AfterView::SayThenFocus { message, pane_id: pane };
            let (w, effect) = v.after_save(outcome, after, now);
            w.status == Some((message, now)) && effect == EffectView::Focus { pane_id: pane }
        }),
        v.after_save(outcome, AfterView::Nothing, now).1 == EffectView::Nothing,
{
}

/// A refused text stays where it is, with the cursor and what was moved aside: the
/// pane only says why.
pub proof fn refused_text_stays(
    v: AppView,
    error: Seq<char>,
    target: TargetView,
    text: Seq<char>,
    now: u64,
)
    ensures
        only_said(v, v.delivered(Err(error), target, text, now).0, now),
        v.delivered(Err(error), target, text, now).1 == EffectView::Nothing,
{
}

/// A pane opens, or gets a text back, with all of the text and the cursor at its
/// end: it is opened to add to it.
pub proof fn texts_are_opened_at_their_end(text: Seq<char>)
    ensures
        app::buffer_of(text).valid(),
        app::buffer_of(text).text() == text,
        app::buffer_of(text).offset() == text.len(),
{
    text::lemma_split(text);
    text::lemma_join_of_split(text);
    buffer::lemma_around_cursor(app::buffer_of(text));
}

/// A pasted text stands in the pane as a whole, where the cursor was, and the
/// cursor after it; what was before and after it stays.
pub proof fn pasting_splices_the_whole_text(b: BufferView, pasted: Seq<char>)
    requires
        b.valid(),
    ensures
        ({
            let w = b.inserted(text::split(text::normalised(pasted)));
            let n = text::normalised(pasted).len() as int;
            &&& w.valid()
            &&& w.offset() == b.offset() + n
            &&& w.text().len() == b.text().len() + n
            &&& w.text().take(b.offset()) == b.text().take(b.offset())
            &&& w.text().subrange(b.offset(), b.offset() + n) == text::normalised(pasted)
            &&& w.text().skip(b.offset() + n) == b.text().skip(b.offset())
        }),
{
    let clean = text::normalised(pasted);
    let at = b.offset();
    let n = clean.len() as int;
    text::lemma_split(clean);
    text::lemma_join_of_split(clean);
    buffer::insertion_splices_text(b, text::split(clean));
    buffer::lemma_around_cursor(b);
    let w = b.inserted(text::split(clean));
    assert(w.text().take(at) =~= b.text().take(at));
    assert(w.text().subrange(at, at + n) =~= clean);
    assert(w.text().skip(at + n) =~= b.text().skip(at));
}

} // verus!
