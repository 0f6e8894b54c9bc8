//! The state of the pane and its event machine.
//!
//! Every event is a method of [`App`] that changes the state and returns an
//! [`Effect`]: what is to be done outside, on disk, on the terminal or with the
//! server. What came of it is handed back by another method, which may ask for
//! more. Times are nanoseconds on a clock that never goes back.
use crate::agents;
use crate::agents::{Target, TargetView};
use crate::buffer;
use crate::buffer::{Buffer, BufferView, PAGE_FALLBACK};
use crate::clipboard;
use crate::clipboard::{CopyError, MAX_CLIPBOARD_BYTES};
use crate::input::{KeyCode, KeyEvent, KeyEventKind, MouseButton, MouseEvent, MouseEventKind};
use crate::json;
use crate::json::{Json, JsonView};
use crate::state;
use crate::state::{Store, StoreView};
use crate::text;
use crate::ui;
use crate::ui::{Position, Rect};
use vstd::prelude::*;

verus! {

/// The text is saved this long after the last keystroke.
pub const AUTOSAVE_AFTER: u64 = 500_000_000;

/// The pane is stamped this often. The launcher takes it for dead after twenty
/// seconds.
pub const HEARTBEAT_EVERY: u64 = 5_000_000_000;

/// The state file is looked at this often.
pub const WATCH_EVERY: u64 = 700_000_000;

/// A message is shown this long before the buttons come back.
pub const STATUS_FOR: u64 = 3_000_000_000;

/// The list of agents is asked for this often. The display need only be roughly
/// up to date: the target is looked up again when sending.
pub const TARGET_REFRESH: u64 = 2_500_000_000;

/// The visual rows that one notch of the wheel moves.
pub const WHEEL_STEP: usize = 3;

/// The five commands. There is none to quit: the gesture that opened the pane
/// closes it.
#[derive(Debug, Clone, Copy, PartialEq, Eq, Structural)]
pub enum Command {
    /// Hands the text to an agent, without submitting it, and empties the pane.
    Send,
    Copy,
    Clear,
    Export,
    Undo,
}

/// What an entry of the bottom bar does.
///
/// The target zone is no command: it leaves the text alone and chooses whom it
/// goes to.
#[derive(Debug, Clone, Copy, PartialEq, Eq, Structural)]
pub enum Action {
    Command(Command),
    CycleTarget,
}

/// What follows a save.
#[derive(Debug)]
pub enum After {
    Nothing,
    /// A message.
    Say(String),
    /// A message, and then the focus to a pane.
    SayThenFocus { message: String, pane_id: String },
}

/// What follows a save, as plain text.
pub enum AfterView {
    Nothing,
    Say(Seq<char>),
    SayThenFocus { message: Seq<char>, pane_id: Seq<char> },
}

impl View for After {
    type V = AfterView;

    open spec fn view(&self) -> AfterView {
        match self {
            After::Nothing => AfterView::Nothing,
            After::Say(m) => AfterView::Say(m@),
            After::SayThenFocus { message, pane_id } => AfterView::SayThenFocus {
                message: message@,
                pane_id: pane_id@,
            },
        }
    }
}

/// What is to be done outside, and which method takes what came of it.
#[derive(Debug)]
pub enum Effect {
    Nothing,
    /// Save the text; then [`App::saved`].
    Save { text: String, after: After },
    /// Write the sequence to the terminal; then [`App::copied`].
    Copy { sequence: String, len: usize },
    /// Export the text; then [`App::exported`].
    Export { text: String },
    /// Ask for the agents; then [`App::refresh_targets`].
    Refresh,
    /// Ask for the agents before sending; then [`App::send_listed`].
    ListAgents { intended: String, text: String },
    /// Hand the text to the agent; then [`App::send_delivered`].
    Deliver { target: Target, text: String },
    /// Give the focus to a pane. Whether that works changes nothing here.
    Focus { pane_id: String },
    /// Look at the state file; then [`App::watched`].
    Watch,
    /// Stamp the pane. Whether that works changes nothing here.
    Stamp { pane_id: String },
}

/// What is to be done outside, as plain text.
pub enum EffectView {
    Nothing,
    Save { text: Seq<char>, after: AfterView },
    Copy { sequence: Seq<char>, len: int },
    Export { text: Seq<char> },
    Refresh,
    ListAgents { intended: Seq<char>, text: Seq<char> },
    Deliver { target: TargetView, text: Seq<char> },
    Focus { pane_id: Seq<char> },
    Watch,
    Stamp { pane_id: Seq<char> },
}

impl View for Effect {
    type V = EffectView;

    open spec fn view(&self) -> EffectView {
        match self {
            Effect::Nothing => EffectView::Nothing,
            Effect::Save { text, after } => EffectView::Save { text: text@, after: after@ },
            Effect::Copy { sequence, len } => EffectView::Copy {
                sequence: sequence@,
                len: *len as int,
            },
            Effect::Export { text } => EffectView::Export { text: text@ },
            Effect::Refresh => EffectView::Refresh,
            Effect::ListAgents { intended, text } => EffectView::ListAgents {
                intended: intended@,
                text: text@,
            },
            Effect::Deliver { target, text } => EffectView::Deliver {
                target: target@,
                text: text@,
            },
            Effect::Focus { pane_id } => EffectView::Focus { pane_id: pane_id@ },
            Effect::Watch => EffectView::Watch,
            Effect::Stamp { pane_id } => EffectView::Stamp { pane_id: pane_id@ },
        }
    }
}

/// The state of the pane as plain data.
pub struct AppView {
    pub buf: BufferView,
    pub store: Option<StoreView>,
    pub stash: Option<Seq<char>>,
    pub status: Option<(Seq<char>, u64)>,
    pub scroll: usize,
    pub buttons: Seq<(Action, Rect)>,
    pub body: Rect,
    pub total_rows: usize,
    pub dirty: bool,
    pub last_edit: u64,
    pub last_beat: u64,
    pub last_watch: u64,
    pub last_targets: u64,
    pub pane_id: Option<Seq<char>>,
    pub tab_id: Option<Seq<char>>,
    pub targets: Seq<TargetView>,
    pub target: Option<usize>,
}

/// The empty text.
pub open spec fn blank_buffer() -> BufferView {
    BufferView { lines: seq![Seq::empty()], row: 0, col: 0 }
}

/// A text with the cursor at its end.
pub open spec fn buffer_of(text: Seq<char>) -> BufferView {
    let lines = text::split(text);
    BufferView { lines, row: lines.len() - 1, col: lines.last().len() as int }
}

/// A size for people to read: bytes, or kilobytes and megabytes with one
/// decimal.
pub open spec fn size_text(bytes: int) -> Seq<char> {
    if bytes >= 0x100000 {
        one_decimal(bytes, 0x100000) + " MB"@
    } else if bytes >= 0x400 {
        one_decimal(bytes, 0x400) + " KB"@
    } else {
        text::decimal(bytes as nat) + " B"@
    }
}

/// A quotient with one decimal, to the nearest, halves to the even one. The
/// dividend is first taken to its 53 highest bits, as a floating point number
/// holds it.
pub open spec fn one_decimal(n: int, unit: int) -> Seq<char> {
    let tenths = text::half_even(10 * to_53_bits(n, 1), unit);
    text::decimal((tenths / 10) as nat).push('.').push(text::digit(tenths % 10))
}

/// A number rounded to a multiple of the least power of two, from `u` on, that
/// leaves 53 bits.
pub open spec fn to_53_bits(n: int, u: int) -> int
    decreases n - u,
{
    if u <= 0 || n / u < 0x20_0000_0000_0000 || n < 2 * u {
        text::half_even(n, u) * u
    } else {
        to_53_bits(n, 2 * u)
    }
}

/// The word before the cursor erased.
pub open spec fn word_erased(b: BufferView) -> BufferView {
    let start = buffer::word_start(b.text(), b.offset());
    buffer::buffer_at(b.text().take(start) + b.text().skip(b.offset()), start)
}

/// The cursor some lines up, at most on the first.
pub open spec fn raised(b: BufferView, n: int) -> BufferView {
    b.placed(
        if n > b.row {
            0
        } else {
            b.row - n
        },
        b.col,
    )
}

/// The first target with a pane id, from the `i`-th on.
pub open spec fn index_from(targets: Seq<TargetView>, pane_id: Seq<char>, i: int) -> Option<usize>
    decreases targets.len() - i,
{
    if i < 0 || i >= targets.len() {
        None
    } else if targets[i].pane_id == pane_id {
        Some(i as usize)
    } else {
        index_from(targets, pane_id, i + 1)
    }
}

/// The first button that holds a place, from the `i`-th on.
pub open spec fn button_at(buttons: Seq<(Action, Rect)>, pos: Position, i: int) -> Option<Action>
    decreases buttons.len() - i,
{
    if i < 0 || i >= buttons.len() {
        None
    } else if buttons[i].1.holds(pos) {
        Some(buttons[i].0)
    } else {
        button_at(buttons, pos, i + 1)
    }
}

/// The time gone by since a moment.
pub open spec fn elapsed(now: u64, since: u64) -> int {
    if now > since {
        now - since
    } else {
        0
    }
}

impl AppView {
    /// The cursor stands in the text.
    pub open spec fn valid(self) -> bool {
        self.buf.valid()
    }

    /// The target on display, if any.
    pub open spec fn current(self) -> Option<TargetView> {
        match self.target {
            Some(i) => if i < self.targets.len() {
                Some(self.targets[i as int])
            } else {
                None
            },
            None => None,
        }
    }

    /// A message to show.
    pub open spec fn say(self, message: Seq<char>, now: u64) -> AppView {
        AppView { status: Some((message, now)), ..self }
    }

    /// A change of the text to save.
    pub open spec fn touched(self, now: u64) -> AppView {
        AppView { dirty: true, last_edit: now, ..self }
    }

    /// An edit of the text.
    pub open spec fn edited(self, buf: BufferView, now: u64) -> AppView {
        (AppView { buf, ..self }).touched(now)
    }

    /// What follows a save.
    pub open spec fn followed(self, after: AfterView, now: u64) -> (AppView, EffectView) {
        match after {
            AfterView::Nothing => (self, EffectView::Nothing),
            AfterView::Say(m) => (self.say(m, now), EffectView::Nothing),
            AfterView::SayThenFocus { message, pane_id } => (
                self.say(message, now),
                EffectView::Focus { pane_id },
            ),
        }
    }

    /// A save: nothing to do for a text that is saved, nowhere to write without
    /// a store.
    pub open spec fn flushed(self, after: AfterView, now: u64) -> (AppView, EffectView) {
        if self.dirty && self.store is Some {
            (self, EffectView::Save { text: self.buf.text(), after })
        } else {
            (AppView { dirty: false, ..self }).followed(after, now)
        }
    }

    /// What came of a save: the time of the file, or an error, which leaves the
    /// text to be saved again.
    pub open spec fn after_save(
        self,
        outcome: Result<Option<i128>, Seq<char>>,
        after: AfterView,
        now: u64,
    ) -> (AppView, EffectView) {
        match outcome {
            Ok(modified) => (AppView {
                store: match self.store {
                    Some(s) => Some(StoreView { seen: modified, ..s }),
                    None => None,
                },
                dirty: false,
                ..self
            }).followed(after, now),
            Err(e) => self.say("save failed: "@ + e, now).followed(after, now),
        }
    }

    /// The text moved aside, where one undo finds it, and the pane emptied.
    pub open spec fn stashed(self, text: Seq<char>, after: AfterView, now: u64) -> (
        AppView,
        EffectView,
    ) {
        (AppView { stash: Some(text), scroll: 0, ..self }).edited(blank_buffer(), now).flushed(
            after,
            now,
        )
    }

    pub open spec fn clear(self, now: u64) -> (AppView, EffectView) {
        if self.buf.text().len() == 0 {
            (self.say("already empty"@, now), EffectView::Nothing)
        } else {
            self.stashed(self.buf.text(), AfterView::Say("cleared · ^Z undoes"@), now)
        }
    }

    pub open spec fn undo(self, now: u64) -> (AppView, EffectView) {
        match self.stash {
            Some(text) => (AppView { stash: None, ..self }).edited(buffer_of(text), now).flushed(
                AfterView::Say("restored"@),
                now,
            ),
            None => (self.say("nothing to restore"@, now), EffectView::Nothing),
        }
    }

    pub open spec fn copy(self, now: u64) -> (AppView, EffectView) {
        let text = self.buf.text();
        match clipboard::copyable(text) {
            Ok(()) => (
                self,
                EffectView::Copy {
                    sequence: clipboard::sequence_of(vstd::utf8::encode_utf8(text)),
                    len: clipboard::byte_len(text),
                },
            ),
            Err(CopyError::TooLarge { len }) => (
                self.say(
                    size_text(len as int) + " > "@ + size_text(MAX_CLIPBOARD_BYTES as int)
                        + " — ^S writes the file"@,
                    now,
                ),
                EffectView::Nothing,
            ),
            Err(_) => (self.say("nothing to copy"@, now), EffectView::Nothing),
        }
    }

    pub open spec fn after_copy(self, len: int, outcome: Result<(), Seq<char>>, now: u64) -> AppView {
        match outcome {
            Ok(()) => self.say("copied · "@ + size_text(len), now),
            Err(e) => self.say("copy failed: "@ + e, now),
        }
    }

    pub open spec fn after_export(self, outcome: Result<Seq<char>, Seq<char>>, now: u64) -> AppView {
        match outcome {
            Ok(path) => self.say(path, now),
            Err(e) => self.say("export failed: "@ + e, now),
        }
    }

    /// The first step of sending: the target on display is the one meant, but it
    /// is looked up again before anything leaves.
    pub open spec fn send(self, now: u64) -> (AppView, EffectView) {
        let text = self.buf.text();
        if text.len() == 0 {
            (self.say("nothing to emit"@, now), EffectView::Nothing)
        } else {
            match self.current() {
                Some(t) => (self, EffectView::ListAgents { intended: t.pane_id, text }),
                None => (self.say("no agent"@, now), EffectView::Nothing),
            }
        }
    }

    /// The list of agents brought up to date: the chosen target stays chosen
    /// while it is listed, else the first one is. Without an answer the list
    /// stays as it was.
    pub open spec fn refreshed(self, reply: Option<Option<JsonView>>) -> AppView {
        match reply {
            None => self,
            Some(parsed) => {
                let targets = agents::targets_in(parsed, self.tab_id, self.pane_id);
                let kept = match self.current() {
                    Some(t) => index_from(targets, t.pane_id, 0),
                    None => None,
                };
                let target = if kept is Some {
                    kept
                } else if targets.len() > 0 {
                    Some(0usize)
                } else {
                    None
                };
                AppView { targets, target, ..self }
            },
        }
    }

    /// The second step of sending: the target that was meant gets the text, or
    /// nobody does.
    pub open spec fn listed(
        self,
        reply: Option<Option<JsonView>>,
        intended: Seq<char>,
        text: Seq<char>,
        now: u64,
    ) -> (AppView, EffectView) {
        let next = self.refreshed(reply);
        match index_from(next.targets, intended, 0) {
            Some(i) => (next, EffectView::Deliver { target: next.targets[i as int], text }),
            None => (next.say("agent not found"@, now), EffectView::Nothing),
        }
    }

    /// The last step of sending: a text that was taken is moved aside, and the
    /// agent gets the focus; one that was refused stays where it is.
    pub open spec fn delivered(
        self,
        outcome: Result<(), Seq<char>>,
        target: TargetView,
        text: Seq<char>,
        now: u64,
    ) -> (AppView, EffectView) {
        match outcome {
            Ok(()) => self.stashed(
                text,
                AfterView::SayThenFocus {
                    message: "emitted → "@ + target.agent + " · ^Z undoes"@,
                    pane_id: target.pane_id,
                },
                now,
            ),
            Err(e) => (self.say("emit failed: "@ + e, now), EffectView::Nothing),
        }
    }

    pub open spec fn run(self, command: Command, now: u64) -> (AppView, EffectView) {
        match command {
            Command::Send => self.send(now),
            Command::Copy => self.copy(now),
            Command::Clear => self.clear(now),
            Command::Export => (self, EffectView::Export { text: self.buf.text() }),
            Command::Undo => self.undo(now),
        }
    }

    /// The next target, in a loop, where there are at least two.
    pub open spec fn cycled(self) -> AppView {
        let n = self.targets.len();
        if n < 2 {
            self
        } else {
            AppView {
                target: match self.target {
                    Some(i) => if i + 1 < n {
                        Some((i + 1) as usize)
                    } else {
                        Some(0usize)
                    },
                    None => Some(0usize),
                },
                ..self
            }
        }
    }

    /// The rows that page up and page down move.
    pub open spec fn page(self) -> int {
        if self.body.height > 0 {
            self.body.height as int
        } else {
            PAGE_FALLBACK as int
        }
    }

    pub open spec fn at(self, buf: BufferView) -> AppView {
        AppView { buf, ..self }
    }

    /// A key held with control alone: a command, a jump, or nothing at all.
    pub open spec fn control_key(self, code: KeyCode, now: u64) -> (AppView, EffectView) {
        let b = self.buf;
        let quiet = EffectView::Nothing;
        match code {
            KeyCode::Char(c) => if c == 'e' || c == 'E' {
                self.run(Command::Send, now)
            } else if c == 'n' || c == 'N' {
                (self.cycled(), quiet)
            } else if c == 'c' || c == 'C' {
                self.run(Command::Copy, now)
            } else if c == 'l' || c == 'L' {
                self.run(Command::Clear, now)
            } else if c == 's' || c == 'S' {
                self.run(Command::Export, now)
            } else if c == 'z' || c == 'Z' {
                self.run(Command::Undo, now)
            } else if c == 'h' || c == 'H' {
                (self.edited(word_erased(b), now), quiet)
            } else {
                (self, quiet)
            },
            KeyCode::Left => (
                self.at(buffer::buffer_at(b.text(), buffer::word_start(b.text(), b.offset()))),
                quiet,
            ),
            KeyCode::Right => (
                self.at(buffer::buffer_at(b.text(), buffer::word_end(b.text(), b.offset()))),
                quiet,
            ),
            KeyCode::Home => (self.at(buffer::buffer_at(b.text(), 0)), quiet),
            KeyCode::End => (self.at(buffer::buffer_at(b.text(), b.text().len() as int)), quiet),
            KeyCode::Backspace => (self.edited(word_erased(b), now), quiet),
            _ => (self, quiet),
        }
    }

    /// A key on its own: text, an edit, or a move.
    pub open spec fn plain_key(self, code: KeyCode, now: u64) -> AppView {
        let b = self.buf;
        match code {
            KeyCode::Char(c) => self.edited(b.inserted(text::split(seq![c])), now),
            KeyCode::Enter => self.edited(b.inserted(text::split(seq!['\n'])), now),
            KeyCode::Backspace => self.edited(b.backspaced(), now),
            KeyCode::Delete => self.edited(b.deleted(), now),
            KeyCode::Left => self.at(b.moved_left()),
            KeyCode::Right => self.at(b.moved_right()),
            KeyCode::Up => self.at(raised(b, 1)),
            KeyCode::Down => self.at(b.placed(b.row + 1, b.col)),
            KeyCode::Home => self.at(BufferView { col: 0, ..b }),
            KeyCode::End => self.at(BufferView { col: b.line().len() as int, ..b }),
            KeyCode::PageUp => self.at(raised(b, self.page())),
            KeyCode::PageDown => self.at(b.placed(b.row + self.page(), b.col)),
            _ => self,
        }
    }

    /// A key event. Releases mean nothing; control with alt is how some
    /// keyboards type ordinary characters, and so is no command.
    pub open spec fn key(self, key: KeyEvent, now: u64) -> (AppView, EffectView) {
        if key.kind == KeyEventKind::Release {
            (self, EffectView::Nothing)
        } else if key.modifiers.control && !key.modifiers.alt {
            self.control_key(key.code, now)
        } else {
            (self.plain_key(key.code, now), EffectView::Nothing)
        }
    }

    /// A press of the left button: on a button of the bar, or in the text.
    pub open spec fn click(self, pos: Position, now: u64) -> (AppView, EffectView) {
        match button_at(self.buttons, pos, 0) {
            Some(Action::Command(command)) => self.run(command, now),
            Some(Action::CycleTarget) => (self.cycled(), EffectView::Nothing),
            None => match ui::clicked(
                ui::line_widths(self.buf.lines),
                self.body,
                self.scroll as int,
                pos,
            ) {
                Some((row, col)) => (self.at(self.buf.placed(row, col)), EffectView::Nothing),
                None => (self, EffectView::Nothing),
            },
        }
    }

    /// A mouse event. With shift it belongs to the terminal.
    pub open spec fn mouse(self, ev: MouseEvent, now: u64) -> (AppView, EffectView) {
        let most = if self.total_rows > self.body.height {
            self.total_rows - self.body.height
        } else {
            0
        };
        let quiet = EffectView::Nothing;
        if ev.modifiers.shift {
            (self, quiet)
        } else {
            match ev.kind {
                MouseEventKind::Down(MouseButton::Left) => self.click(
                    Position { x: ev.column, y: ev.row },
                    now,
                ),
                MouseEventKind::ScrollUp => {
                    let up = if self.scroll > WHEEL_STEP {
                        self.scroll - WHEEL_STEP
                    } else {
                        0
                    };
                    (AppView { scroll: up as usize, ..self }, quiet)
                },
                MouseEventKind::ScrollDown => {
                    let down = if self.scroll + WHEEL_STEP < most {
                        self.scroll + WHEEL_STEP
                    } else {
                        most
                    };
                    (AppView { scroll: down as usize, ..self }, quiet)
                },
                _ => (self, quiet),
            }
        }
    }

    /// The save that falls due some time after the last keystroke.
    pub open spec fn autosaved(self, now: u64) -> (AppView, EffectView) {
        if self.dirty && elapsed(now, self.last_edit) >= AUTOSAVE_AFTER {
            self.flushed(AfterView::Nothing, now)
        } else {
            (self, EffectView::Nothing)
        }
    }

    /// The look at the state file that falls due from time to time, but not
    /// while there is something to save.
    pub open spec fn watch(self, now: u64) -> (AppView, EffectView) {
        if elapsed(now, self.last_watch) < WATCH_EVERY {
            (self, EffectView::Nothing)
        } else {
            (
                AppView { last_watch: now, ..self },
                if !self.dirty && self.store is Some {
                    EffectView::Watch
                } else {
                    EffectView::Nothing
                },
            )
        }
    }

    /// The question for the agents that falls due from time to time.
    pub open spec fn refresh_due(self, now: u64) -> (AppView, EffectView) {
        if elapsed(now, self.last_targets) < TARGET_REFRESH {
            (self, EffectView::Nothing)
        } else {
            (AppView { last_targets: now, ..self }, EffectView::Refresh)
        }
    }

    /// The stamp of the pane, where it has an id.
    pub open spec fn stamp_effect(self) -> EffectView {
        match self.pane_id {
            Some(pane_id) => EffectView::Stamp { pane_id },
            None => EffectView::Nothing,
        }
    }

    /// The stamp that falls due from time to time.
    pub open spec fn beat(self, now: u64) -> (AppView, EffectView) {
        if elapsed(now, self.last_beat) < HEARTBEAT_EVERY {
            (self, EffectView::Nothing)
        } else {
            (AppView { last_beat: now, ..self }, self.stamp_effect())
        }
    }

    /// The message that is still to be shown.
    pub open spec fn shown_status(self, now: u64) -> Option<Seq<char>> {
        match self.status {
            Some((message, at)) => if elapsed(now, at) < STATUS_FOR {
                Some(message)
            } else {
                None
            },
            None => None,
        }
    }

    /// What came of a look at the state file. A pane with keystrokes to save is
    /// never overwritten.
    pub open spec fn after_watch(self, modified: Option<i128>, content: Seq<char>) -> AppView {
        match self.store {
            Some(s) => if self.dirty || modified == s.seen {
                self
            } else {
                let next = AppView {
                    store: Some(StoreView { seen: modified, ..s }),
                    ..self
                };
                if content == self.buf.text() {
                    next
                } else {
                    next.at(
                        (BufferView { lines: text::split(content), ..self.buf }).placed(
                            self.buf.row,
                            self.buf.col,
                        ),
                    )
                }
            },
            None => self,
        }
    }
}

/// The pane.
#[derive(Debug)]
pub struct App {
    pub buf: Buffer,
    pub store: Option<Store>,
    /// The text that the last clear moved aside. One place is enough: a clear is
    /// regretted within seconds, not three clears later.
    pub stash: Option<String>,
    /// A message, and when it was said.
    pub status: Option<(String, u64)>,
    pub scroll: usize,
    /// Where the buttons were last drawn, for the next click.
    pub buttons: Vec<(Action, Rect)>,
    pub body: Rect,
    pub total_rows: usize,
    /// Whether the text holds changes that are not saved.
    pub dirty: bool,
    pub last_edit: u64,
    pub last_beat: u64,
    pub last_watch: u64,
    pub last_targets: u64,
    pub pane_id: Option<String>,
    /// The tab this pane was born in. It names the state file, bounds the
    /// targets, and marks the export.
    pub tab_id: Option<String>,
    /// The agents of this tab.
    pub targets: Vec<Target>,
    /// The chosen one.
    pub target: Option<usize>,
}

impl View for App {
    type V = AppView;

    open spec fn view(&self) -> AppView {
        AppView {
            buf: self.buf@,
            store: match self.store {
                Some(s) => Some(s@),
                None => None,
            },
            stash: text::string_view(self.stash),
            status: match self.status {
                Some((m, at)) => Some((m@, at)),
                None => None,
            },
            scroll: self.scroll,
            buttons: self.buttons@,
            body: self.body,
            total_rows: self.total_rows,
            dirty: self.dirty,
            last_edit: self.last_edit,
            last_beat: self.last_beat,
            last_watch: self.last_watch,
            last_targets: self.last_targets,
            pane_id: text::string_view(self.pane_id),
            tab_id: text::string_view(self.tab_id),
            targets: agents::views(self.targets@),
            target: self.target,
        }
    }
}

/// What came of a save, as plain text.
pub open spec fn save_view(outcome: Result<Option<i128>, String>) -> Result<
    Option<i128>,
    Seq<char>,
> {
    match outcome {
        Ok(m) => Ok(m),
        Err(e) => Err(e@),
    }
}

/// What came of an export, as plain text.
pub open spec fn export_view(outcome: Result<String, String>) -> Result<Seq<char>, Seq<char>> {
    match outcome {
        Ok(path) => Ok(path@),
        Err(e) => Err(e@),
    }
}

/// A borrowed optional string.
fn borrowed(s: &Option<String>) -> (t: Option<&str>)
    ensures
        text::text_view(t) == text::string_view(*s),
{
    match s {
        Some(v) => Some(v.as_str()),
        None => None,
    }
}

/// Two texts, one after the other.
fn glue(a: &str, b: &str) -> (s: String)
    ensures
        s@ == a@ + b@,
{
    let mut s: String = a.to_owned();
    s.append(b);
    s
}

fn copy_of(buttons: &[(Action, Rect)]) -> (copy: Vec<(Action, Rect)>)
    ensures
        copy@ == buttons@,
{
    let mut copy: Vec<(Action, Rect)> = Vec::new();
    for i in 0..buttons.len()
        invariant
            copy@ == buttons@.take(i as int),
    {
        copy.push((buttons[i].0, buttons[i].1));
    }
    assert(copy@ =~= buttons@);
    copy
}

fn since(now: u64, at: u64) -> (gone: u64)
    ensures
        gone == elapsed(now, at),
{
    now.saturating_sub(at)
}

proof fn lemma_buffer_of(b: BufferView, text: Seq<char>)
    requires
        b.valid(),
        b.lines == text::split(text),
        b.text() == text,
        b.offset() == text.len(),
    ensures
        b == buffer_of(text),
{
    text::lemma_split(text);
    text::lemma_join_of_split(text);
    let v = buffer_of(text);
    assert(v.valid());
    buffer::lemma_around_cursor(v);
    buffer::text_and_offset_determine_buffer(b, v);
}

impl App {
    /// A pane that opens: the text of its store, given the time of the file and
    /// what was read of it, and the ids the server gave it.
    pub fn new(
        store: Option<Store>,
        modified: Option<i128>,
        content: Option<String>,
        pane_id: Option<String>,
        tab_id: Option<String>,
        now: u64,
    ) -> (app: Self)
        ensures
            app@.valid(),
            app@ == (AppView {
                buf: buffer_of(
                    if store is Some {
                        state::text_or_empty(text::string_view(content))
                    } else {
                        Seq::empty()
                    },
                ),
                store: match store {
                    Some(s) => Some(StoreView { seen: modified, ..s@ }),
                    None => None,
                },
                stash: None,
                status: None,
                scroll: 0,
                buttons: Seq::empty(),
                body: Rect { x: 0, y: 0, width: 0, height: 0 },
                total_rows: 0,
                dirty: false,
                last_edit: now,
                last_beat: now,
                last_watch: now,
                last_targets: now,
                pane_id: text::string_view(pane_id),
                tab_id: text::string_view(tab_id),
                targets: Seq::empty(),
                target: None,
            }),
    {
        let mut store = store;
        let text: String = match store {
            Some(ref mut s) => s.load(modified, content),
            None => String::new(),
        };
        let buf = Buffer::from_text(text.as_str());
        proof {
            lemma_buffer_of(buf@, text@);
        }
        let app = App {
            buf,
            store,
            stash: None,
            status: None,
            scroll: 0,
            buttons: Vec::new(),
            body: Rect { x: 0, y: 0, width: 0, height: 0 },
            total_rows: 0,
            dirty: false,
            last_edit: now,
            last_beat: now,
            last_watch: now,
            last_targets: now,
            pane_id,
            tab_id,
            targets: Vec::new(),
            target: None,
        };
        assert(app@.targets =~= Seq::<TargetView>::empty());
        app
    }

    /// The target on display, if any.
    pub fn current_target(&self) -> (target: Option<&Target>)
        ensures
            ui::current_view(target) == self@.current(),
    {
        match self.target {
            Some(i) => if i < self.targets.len() {
                assert(self@.targets[i as int] == self.targets@[i as int]@);
                Some(&self.targets[i])
            } else {
                None
            },
            None => None,
        }
    }

    fn say(&mut self, message: String, now: u64)
        ensures
            final(self)@ == old(self)@.say(message@, now),
    {
        self.status = Some((message, now));
    }

    fn touch(&mut self, now: u64)
        ensures
            final(self)@ == old(self)@.touched(now),
    {
        self.dirty = true;
        self.last_edit = now;
    }

    fn follow(&mut self, after: After, now: u64) -> (effect: Effect)
        ensures
            (final(self)@, effect@) == old(self)@.followed(after@, now),
    {
        match after {
            After::Nothing => Effect::Nothing,
            After::Say(message) => {
                self.say(message, now);
                Effect::Nothing
            },
            After::SayThenFocus { message, pane_id } => {
                self.say(message, now);
                Effect::Focus { pane_id }
            },
        }
    }

    fn flush_then(&mut self, after: After, now: u64) -> (effect: Effect)
        requires
            old(self)@.valid(),
        ensures
            (final(self)@, effect@) == old(self)@.flushed(after@, now),
    {
        if self.dirty && self.store.is_some() {
            return Effect::Save { text: self.buf.text(), after };
        }
        self.dirty = false;
        self.follow(after, now)
    }

    /// Saves what is not saved yet.
    pub fn flush(&mut self, now: u64) -> (effect: Effect)
        requires
            old(self)@.valid(),
        ensures
            (final(self)@, effect@) == old(self)@.flushed(AfterView::Nothing, now),
    {
        self.flush_then(After::Nothing, now)
    }

    /// Takes what came of a save: the time of the file, or what went wrong.
    pub fn saved(
        &mut self,
        outcome: Result<Option<i128>, String>,
        after: After,
        now: u64,
    ) -> (effect: Effect)
        ensures
            (final(self)@, effect@) == old(self)@.after_save(save_view(outcome), after@, now),
    {
        match outcome {
            Ok(modified) => {
                if let Some(ref mut store) = self.store {
                    store.saved(modified);
                }
                self.dirty = false;
            },
            Err(e) => {
                self.say(glue("save failed: ", e.as_str()), now);
            },
        }
        self.follow(after, now)
    }

    /// The pane loses the focus: its text is saved at once, since closing it
    /// gives no warning.
    pub fn on_focus_lost(&mut self, now: u64) -> (effect: Effect)
        requires
            old(self)@.valid(),
        ensures
            (final(self)@, effect@) == old(self)@.flushed(AfterView::Nothing, now),
    {
        self.flush(now)
    }

    /// The last save, on the way out.
    pub fn finalize(&mut self, now: u64) -> (effect: Effect)
        requires
            old(self)@.valid(),
        ensures
            (final(self)@, effect@) == old(self)@.flushed(AfterView::Nothing, now),
    {
        self.flush(now)
    }

    /// A pasted text, in one block.
    pub fn on_paste(&mut self, text: &str, now: u64)
        requires
            old(self)@.valid(),
        ensures
            final(self)@.valid(),
            final(self)@ == old(self)@.edited(
                old(self)@.buf.inserted(text::split(text::normalised(text@))),
                now,
            ),
            final(self)@.buf.text() == old(self)@.buf.text().take(old(self)@.buf.offset())
                + text::normalised(text@) + old(self)@.buf.text().skip(old(self)@.buf.offset()),
            final(self)@.buf.offset() == old(self)@.buf.offset() + text::normalised(text@).len(),
            final(self)@ == (AppView {
                buf: final(self)@.buf,
                dirty: true,
                last_edit: now,
                ..old(self)@
            }),
    {
        self.buf.insert_str(text);
        self.touch(now);
    }

    /// Moves the text aside and empties the pane. There is one way for a clear
    /// and for a send: both can be undone.
    fn stash_and_clear(&mut self, text: String, after: After, now: u64) -> (effect: Effect)
        requires
            old(self)@.valid(),
        ensures
            final(self)@.valid(),
            (final(self)@, effect@) == old(self)@.stashed(text@, after@, now),
    {
        self.stash = Some(text);
        self.buf = Buffer::default();
        self.scroll = 0;
        self.touch(now);
        assert(self.buf@ == blank_buffer());
        self.flush_then(after, now)
    }

    fn clear(&mut self, now: u64) -> (effect: Effect)
        requires
            old(self)@.valid(),
        ensures
            final(self)@.valid(),
            (final(self)@, effect@) == old(self)@.clear(now),
    {
        if self.buf.is_empty() {
            self.say("already empty".to_owned(), now);
            return Effect::Nothing;
        }
        let text = self.buf.text();
        self.stash_and_clear(text, After::Say("cleared · ^Z undoes".to_owned()), now)
    }

    fn undo(&mut self, now: u64) -> (effect: Effect)
        requires
            old(self)@.valid(),
        ensures
            final(self)@.valid(),
            (final(self)@, effect@) == old(self)@.undo(now),
    {
        match self.stash.take() {
            Some(text) => {
                self.buf = Buffer::from_text(text.as_str());
                proof {
                    lemma_buffer_of(self.buf@, text@);
                }
                self.touch(now);
                self.flush_then(After::Say("restored".to_owned()), now)
            },
            None => {
                self.say("nothing to restore".to_owned(), now);
                Effect::Nothing
            },
        }
    }

    fn copy(&mut self, now: u64) -> (effect: Effect)
        requires
            old(self)@.valid(),
        ensures
            final(self)@.valid(),
            (final(self)@, effect@) == old(self)@.copy(now),
    {
        let text = self.buf.text();
        match clipboard::copy(text.as_str()) {
            Ok(clip) => Effect::Copy { sequence: clip.sequence, len: clip.len },
            Err(CopyError::TooLarge { len }) => {
                let mut message = human(len);
                message.append(" > ");
                message.append(human(MAX_CLIPBOARD_BYTES).as_str());
                message.append(" — ^S writes the file");
                self.say(message, now);
                Effect::Nothing
            },
            Err(_) => {
                self.say("nothing to copy".to_owned(), now);
                Effect::Nothing
            },
        }
    }

    /// Takes what came of a copy of `len` bytes.
    pub fn copied(&mut self, len: usize, outcome: Result<(), String>, now: u64)
        ensures
            final(self)@ == old(self)@.after_copy(len as int, crate::ipc::result_view(outcome), now),
    {
        match outcome {
            Ok(()) => self.say(glue("copied · ", human(len).as_str()), now),
            Err(e) => self.say(glue("copy failed: ", e.as_str()), now),
        }
    }

    /// Takes what came of an export: the path it went to, or what went wrong.
    pub fn exported(&mut self, outcome: Result<String, String>, now: u64)
        ensures
            final(self)@ == old(self)@.after_export(export_view(outcome), now),
    {
        match outcome {
            Ok(path) => self.say(path, now),
            Err(e) => self.say(glue("export failed: ", e.as_str()), now),
        }
    }

    fn send(&mut self, now: u64) -> (effect: Effect)
        requires
            old(self)@.valid(),
        ensures
            final(self)@.valid(),
            (final(self)@, effect@) == old(self)@.send(now),
    {
        if self.buf.is_empty() {
            self.say("nothing to emit".to_owned(), now);
            return Effect::Nothing;
        }
        // What the bar showed is what is meant: the text goes there, or nowhere.
        let intended: Option<String> = match self.current_target() {
            Some(t) => Some(t.pane_id.clone()),
            None => None,
        };
        match intended {
            Some(intended) => Effect::ListAgents { intended, text: self.buf.text() },
            None => {
                self.say("no agent".to_owned(), now);
                Effect::Nothing
            },
        }
    }

    fn find(&self, pane_id: &str) -> (index: Option<usize>)
        ensures
            index == index_from(self@.targets, pane_id@, 0),
            index matches Some(i) ==> i < self.targets@.len() && self@.targets[i as int]
                == self.targets@[i as int]@,
    {
        let mut i: usize = 0;
        while i < self.targets.len()
            invariant
                i <= self.targets@.len(),
                index_from(self@.targets, pane_id@, 0) == index_from(
                    self@.targets,
                    pane_id@,
                    i as int,
                ),
            decreases self.targets@.len() - i,
        {
            assert(self@.targets[i as int] == self.targets@[i as int]@);
            if text::same(self.targets[i].pane_id.as_str(), pane_id) {
                return Some(i);
            }
            i = i + 1;
        }
        None
    }

    /// Takes a list of agents that has been read, or that could not be.
    pub fn adopt(&mut self, agents: Option<&Json>)
        ensures
            final(self)@ == old(self)@.refreshed(Some(json::json_view(agents))),
    {
        let kept: Option<String> = match self.current_target() {
            Some(t) => Some(t.pane_id.clone()),
            None => None,
        };
        self.targets = match agents {
            Some(list) => agents::targets_read(
                list,
                borrowed(&self.tab_id),
                borrowed(&self.pane_id),
            ),
            None => Vec::new(),
        };
        assert(self@.targets =~= agents::targets_in(
            json::json_view(agents),
            self@.tab_id,
            self@.pane_id,
        ));
        let found: Option<usize> = match kept {
            Some(id) => self.find(id.as_str()),
            None => None,
        };
        // Failing that, the first: the order is stable, so that is always the
        // same agent.
        self.target = if found.is_some() {
            found
        } else if self.targets.len() > 0 {
            Some(0)
        } else {
            None
        };
    }

    /// Takes an answer to the question for the agents, and keeps the chosen
    /// target. Without an answer the list stays: a server that hiccups must not
    /// move what lies under the finger.
    pub fn refresh_targets(&mut self, reply: Option<&str>)
        ensures
            final(self)@ == old(self)@.refreshed(crate::ipc::reply_view(reply)),
    {
        if let Some(line) = reply {
            let parsed = json::parse(line);
            self.adopt(parsed.as_ref());
        }
    }

    /// Takes the agents, as they are at the moment of sending `text` to the pane
    /// `intended`.
    pub fn send_listed(
        &mut self,
        reply: Option<&str>,
        intended: String,
        text: String,
        now: u64,
    ) -> (effect: Effect)
        ensures
            (final(self)@, effect@) == old(self)@.listed(
                crate::ipc::reply_view(reply),
                intended@,
                text@,
                now,
            ),
    {
        self.refresh_targets(reply);
        match self.find(intended.as_str()) {
            Some(i) => Effect::Deliver { target: self.targets[i].clone(), text },
            None => {
                self.say("agent not found".to_owned(), now);
                Effect::Nothing
            },
        }
    }

    /// Takes what came of handing `text` to `target`. A failure leaves the text
    /// exactly where it was, which is what stands in for a confirmation.
    pub fn send_delivered(
        &mut self,
        outcome: Result<(), String>,
        target: Target,
        text: String,
        now: u64,
    ) -> (effect: Effect)
        requires
            old(self)@.valid(),
        ensures
            final(self)@.valid(),
            (final(self)@, effect@) == old(self)@.delivered(
                crate::ipc::result_view(outcome),
                target@,
                text@,
                now,
            ),
    {
        match outcome {
            Ok(()) => {
                let mut message = glue("emitted → ", target.agent.as_str());
                message.append(" · ^Z undoes");
                // The focus comes last: losing it saves at once, and that save
                // must find the pane empty.
                let after = After::SayThenFocus { message, pane_id: target.pane_id };
                self.stash_and_clear(text, after, now)
            },
            Err(e) => {
                self.say(glue("emit failed: ", e.as_str()), now);
                Effect::Nothing
            },
        }
    }

    fn run(&mut self, command: Command, now: u64) -> (effect: Effect)
        requires
            old(self)@.valid(),
        ensures
            final(self)@.valid(),
            (final(self)@, effect@) == old(self)@.run(command, now),
    {
        match command {
            Command::Send => self.send(now),
            Command::Copy => self.copy(now),
            Command::Clear => self.clear(now),
            Command::Export => Effect::Export { text: self.buf.text() },
            Command::Undo => self.undo(now),
        }
    }

    /// The next target, in a loop. It says nothing: the target zone shows it, and
    /// a message would hide that zone.
    fn cycle_target(&mut self)
        ensures
            final(self)@ == old(self)@.cycled(),
    {
        if self.targets.len() < 2 {
            return ;
        }
        self.target = agents::next(self.targets.as_slice(), self.target);
    }

    fn erase_word(&mut self, now: u64)
        requires
            old(self)@.valid(),
        ensures
            final(self)@.valid(),
            final(self)@ == old(self)@.edited(word_erased(old(self)@.buf), now),
    {
        self.buf.delete_word_left();
        proof {
            buffer::lemma_buffer_at(self.buf@);
        }
        self.touch(now);
    }

    fn on_control_key(&mut self, code: KeyCode, now: u64) -> (effect: Effect)
        requires
            old(self)@.valid(),
        ensures
            final(self)@.valid(),
            (final(self)@, effect@) == old(self)@.control_key(code, now),
    {
        match code {
            KeyCode::Char('e') | KeyCode::Char('E') => {
                return self.run(Command::Send, now);
            },
            KeyCode::Char('n') | KeyCode::Char('N') => self.cycle_target(),
            KeyCode::Char('c') | KeyCode::Char('C') => {
                return self.run(Command::Copy, now);
            },
            KeyCode::Char('l') | KeyCode::Char('L') => {
                return self.run(Command::Clear, now);
            },
            KeyCode::Char('s') | KeyCode::Char('S') => {
                return self.run(Command::Export, now);
            },
            KeyCode::Char('z') | KeyCode::Char('Z') => {
                return self.run(Command::Undo, now);
            },
            KeyCode::Left => {
                self.buf.word_left();
                proof {
                    buffer::lemma_buffer_at(self.buf@);
                }
            },
            KeyCode::Right => {
                self.buf.word_right();
                proof {
                    buffer::lemma_buffer_at(self.buf@);
                }
            },
            KeyCode::Home => {
                self.buf.cursor_to_start();
                proof {
                    buffer::lemma_buffer_at(self.buf@);
                }
            },
            KeyCode::End => {
                self.buf.cursor_to_end();
                proof {
                    buffer::lemma_buffer_at(self.buf@);
                }
            },
            // Some terminals send control and backspace as control and `h`.
            KeyCode::Backspace | KeyCode::Char('h') | KeyCode::Char('H') => self.erase_word(now),
            // Any other combination is swallowed: its letter is not typed.
            _ => {},
        }
        Effect::Nothing
    }

    fn on_plain_key(&mut self, code: KeyCode, now: u64)
        requires
            old(self)@.valid(),
        ensures
            final(self)@.valid(),
            final(self)@ == old(self)@.plain_key(code, now),
    {
        let page: usize = if self.body.height > 0 {
            self.body.height as usize
        } else {
            PAGE_FALLBACK
        };
        match code {
            KeyCode::Char(c) => {
                self.buf.insert_char(c);
                self.touch(now);
            },
            KeyCode::Enter => {
                self.buf.insert_newline();
                self.touch(now);
            },
            KeyCode::Backspace => {
                self.buf.backspace();
                self.touch(now);
            },
            KeyCode::Delete => {
                self.buf.delete();
                self.touch(now);
            },
            KeyCode::Left => self.buf.left(),
            KeyCode::Right => self.buf.right(),
            KeyCode::Up => self.buf.up(1),
            KeyCode::Down => self.buf.down(1),
            KeyCode::Home => self.buf.home(),
            KeyCode::End => self.buf.end(),
            KeyCode::PageUp => self.buf.up(page),
            KeyCode::PageDown => self.buf.down(page),
            _ => {},
        }
    }

    /// A key event.
    pub fn on_key(&mut self, key: KeyEvent, now: u64) -> (effect: Effect)
        requires
            old(self)@.valid(),
        ensures
            final(self)@.valid(),
            (final(self)@, effect@) == old(self)@.key(key, now),
    {
        if key.kind == KeyEventKind::Release {
            return Effect::Nothing;
        }
        // Control with alt is how some keyboards type `@` or `#`: no command.
        if key.modifiers.control && !key.modifiers.alt {
            return self.on_control_key(key.code, now);
        }
        self.on_plain_key(key.code, now);
        Effect::Nothing
    }

    fn hit(&self, pos: Position) -> (action: Option<Action>)
        ensures
            action == button_at(self@.buttons, pos, 0),
    {
        let mut i: usize = 0;
        while i < self.buttons.len()
            invariant
                i <= self.buttons@.len(),
                button_at(self@.buttons, pos, 0) == button_at(self@.buttons, pos, i as int),
            decreases self.buttons@.len() - i,
        {
            if self.buttons[i].1.contains(pos) {
                return Some(self.buttons[i].0);
            }
            i = i + 1;
        }
        None
    }

    fn on_click(&mut self, pos: Position, now: u64) -> (effect: Effect)
        requires
            old(self)@.valid(),
        ensures
            final(self)@.valid(),
            (final(self)@, effect@) == old(self)@.click(pos, now),
    {
        match self.hit(pos) {
            Some(Action::Command(command)) => self.run(command, now),
            Some(Action::CycleTarget) => {
                self.cycle_target();
                Effect::Nothing
            },
            // Beside the bar, a click puts the cursor where it fell.
            None => {
                let at = ui::position_to_cursor(self.buf.lines(), self.body, self.scroll, pos);
                if let Some((row, col)) = at {
                    self.buf.set_cursor(row, col);
                }
                Effect::Nothing
            },
        }
    }

    /// A mouse event. With shift it belongs to the terminal, which selects text
    /// by it.
    pub fn on_mouse(&mut self, ev: MouseEvent, now: u64) -> (effect: Effect)
        requires
            old(self)@.valid(),
        ensures
            final(self)@.valid(),
            (final(self)@, effect@) == old(self)@.mouse(ev, now),
    {
        if ev.modifiers.shift {
            return Effect::Nothing;
        }
        match ev.kind {
            MouseEventKind::Down(MouseButton::Left) => {
                return self.on_click(Position { x: ev.column, y: ev.row }, now);
            },
            MouseEventKind::ScrollUp => {
                self.scroll = self.scroll.saturating_sub(WHEEL_STEP);
            },
            MouseEventKind::ScrollDown => {
                let most: usize = self.total_rows.saturating_sub(self.body.height as usize);
                let down: usize = self.scroll.saturating_add(WHEEL_STEP);
                self.scroll = if down < most {
                    down
                } else {
                    most
                };
            },
            _ => {},
        }
        Effect::Nothing
    }

    /// Saves some time after the last keystroke.
    pub fn maybe_flush(&mut self, now: u64) -> (effect: Effect)
        requires
            old(self)@.valid(),
        ensures
            (final(self)@, effect@) == old(self)@.autosaved(now),
    {
        if self.dirty && since(now, self.last_edit) >= AUTOSAVE_AFTER {
            self.flush(now)
        } else {
            Effect::Nothing
        }
    }

    /// Looks at the state file from time to time, but not while there is
    /// something to save.
    pub fn maybe_reload(&mut self, now: u64) -> (effect: Effect)
        ensures
            (final(self)@, effect@) == old(self)@.watch(now),
    {
        if since(now, self.last_watch) < WATCH_EVERY {
            return Effect::Nothing;
        }
        self.last_watch = now;
        if !self.dirty && self.store.is_some() {
            Effect::Watch
        } else {
            Effect::Nothing
        }
    }

    /// Takes the time of the state file and what was read of it: a file that
    /// others changed takes the place of the text, the cursor staying as near as
    /// it can.
    pub fn watched(&mut self, modified: Option<i128>, content: Option<String>)
        requires
            old(self)@.valid(),
        ensures
            final(self)@.valid(),
            final(self)@ == old(self)@.after_watch(
                modified,
                state::text_or_empty(text::string_view(content)),
            ),
    {
        if self.dirty {
            return ;
        }
        let changed: Option<String> = match self.store {
            Some(ref mut store) => store.reload_if_changed(modified, content),
            None => None,
        };
        if let Some(text) = changed {
            let current = self.buf.text();
            if !text::same(text.as_str(), current.as_str()) {
                self.buf.replace_preserving_cursor(text.as_str());
            }
        }
    }

    /// Asks for the agents from time to time.
    pub fn maybe_refresh_targets(&mut self, now: u64) -> (effect: Effect)
        ensures
            (final(self)@, effect@) == old(self)@.refresh_due(now),
    {
        if since(now, self.last_targets) < TARGET_REFRESH {
            return Effect::Nothing;
        }
        self.last_targets = now;
        Effect::Refresh
    }

    /// Stamps the pane, where it has an id.
    pub fn stamp(&self) -> (effect: Effect)
        ensures
            effect@ == self@.stamp_effect(),
    {
        match &self.pane_id {
            Some(id) => Effect::Stamp { pane_id: id.clone() },
            None => Effect::Nothing,
        }
    }

    /// Stamps the pane from time to time.
    pub fn heartbeat(&mut self, now: u64) -> (effect: Effect)
        ensures
            (final(self)@, effect@) == old(self)@.beat(now),
    {
        if since(now, self.last_beat) < HEARTBEAT_EVERY {
            return Effect::Nothing;
        }
        self.last_beat = now;
        self.stamp()
    }

    /// Lays out the pane, and keeps where things went for the next mouse event.
    pub fn draw(&mut self, area: Rect, now: u64) -> (picture: ui::Picture)
        requires
            old(self)@.valid(),
            area.height >= 1 ==> area.x + area.width <= 0x10000,
            area.height >= 2 ==> area.y + area.height <= u16::MAX,
        ensures
            ({
                let before = old(self)@;
                let body = ui::body_of(area);
                let ws = ui::line_widths(before.buf.lines);
                let rows = ui::wrapped(ws, body.width as int);
                let scroll = ui::scrolled(
                    before.scroll as int,
                    rows.len() as int,
                    body.height as int,
                    ui::cursor_row(rows, before.buf.row, before.buf.col),
                );
                &&& final(self)@ == (AppView {
                    scroll: scroll as usize,
                    buttons: ui::hit_zones(picture.bar@),
                    body,
                    total_rows: rows.len() as usize,
                    ..before
                })
                &&& final(self).scroll == scroll
                &&& final(self).total_rows == rows.len()
                &&& ui::row_views(picture.rows@) == ui::shown_rows(
                    before.buf.lines,
                    rows,
                    None,
                    scroll,
                    body.height as int,
                )
                &&& picture.cursor == ui::cursor_place(
                    ws,
                    body,
                    scroll,
                    before.buf.row,
                    before.buf.col,
                )
                &&& picture.hint == ui::hint_shown(
                    before.buf.text().len() == 0,
                    ui::row_views(picture.rows@),
                )
                &&& picture.bar_area == ui::bar_of(area)
                &&& picture.bar@ == ui::bar_content(
                    ui::bar_of(area),
                    before.shown_status(now),
                    before.current(),
                    before.targets.len() as int,
                )
            }),
    {
        let status: Option<String> = match &self.status {
            Some((message, at)) => if since(now, *at) < STATUS_FOR {
                Some(message.clone())
            } else {
                None
            },
            None => None,
        };
        let mut scroll: usize = self.scroll;
        let targets = ui::Targets { current: self.current_target(), count: self.targets.len() };
        let content = ui::Content {
            lines: self.buf.lines(),
            cursor: self.buf.cursor(),
            selection: None,
        };
        assert(text::strings(content.lines@).len() == content.lines@.len());
        let picture = ui::draw(
            area,
            content,
            &mut scroll,
            borrowed(&status),
            self.buf.is_empty(),
            targets,
        );
        self.scroll = scroll;
        self.buttons = copy_of(picture.geometry.buttons.as_slice());
        self.body = picture.geometry.body;
        self.total_rows = picture.geometry.total_rows;
        picture
    }
}

/// The live tabs, or nothing, for a sweep to keep its hands off: no answer and
/// an empty list say nothing about the tabs.
pub open spec fn tabs_alive(reply: Option<Option<JsonView>>) -> Option<Seq<Seq<char>>> {
    match reply {
        Some(parsed) => if agents::live_in(parsed).len() > 0 {
            Some(agents::live_in(parsed))
        } else {
            None
        },
        None => None,
    }
}

/// The live tabs of an answer to `tab.list`, or nothing, to abstain from any
/// sweep: a silent server must not make orphans of all buffers at once.
pub fn live_tabs(reply: Option<&str>) -> (live: Option<Vec<String>>)
    ensures
        live is Some <==> tabs_alive(crate::ipc::reply_view(reply)) is Some,
        live matches Some(ids) ==> tabs_alive(crate::ipc::reply_view(reply)) == Some(
            text::strings(ids@),
        ),
{
    match reply {
        Some(line) => {
            let live = agents::live_tab_ids(line);
            assert(text::strings(live@).len() == live@.len());
            if live.len() > 0 {
                Some(live)
            } else {
                None
            }
        },
        None => None,
    }
}

proof fn lemma_unit_step(n: int, u: int)
    requires
        u >= 1,
        n >= 0,
        n / u >= 0x20_0000_0000_0000,
    ensures
        2 * u * 0x10_0000_0000_0000 <= n,
        2 * u <= n,
{
    vstd::arithmetic::div_mod::lemma_fundamental_div_mod(n, u);
    let q = n / u;
    assert(2 * u * 0x10_0000_0000_0000 <= u * q) by (nonlinear_arith)
        requires
            q >= 0x20_0000_0000_0000,
            u >= 1,
    ;
}

/// The 53 highest bits of a number, rounded, halves to the even one.
fn highest_bits(n: u64) -> (f: u128)
    ensures
        f == to_53_bits(n as int, 1),
        f <= 2 * n,
        n < 0x20_0000_0000_0000 ==> f == n,
{
    let wide: u128 = n as u128;
    let mut unit: u128 = 1;
    while wide / unit >= 0x20_0000_0000_0000
        invariant
            wide == n,
            1 <= unit,
            unit == 1 || unit <= wide,
            n < 0x20_0000_0000_0000 ==> unit == 1,
            to_53_bits(n as int, 1) == to_53_bits(n as int, unit as int),
        decreases wide - unit,
    {
        proof {
            lemma_unit_step(wide as int, unit as int);
        }
        unit = 2 * unit;
    }
    let q: u128 = wide / unit;
    let r: u128 = wide % unit;
    proof {
        vstd::arithmetic::div_mod::lemma_fundamental_div_mod(wide as int, unit as int);
        assert(q * unit + unit == (q + 1) * unit) by (nonlinear_arith);
        assert(q * unit == unit * q) by (nonlinear_arith);
        if unit == 1 {
            assert(r == 0);
        }
    }
    let up: bool = r > unit - r || (r == unit - r && q % 2 == 1);
    if up {
        (q + 1) * unit
    } else {
        q * unit
    }
}

/// A quotient with one decimal.
fn with_one_decimal(n: u64, unit: u64) -> (s: String)
    requires
        unit == 0x400 && n < 0x100000 || unit == 0x100000,
    ensures
        s@ == one_decimal(n as int, unit as int),
{
    let f: u128 = highest_bits(n);
    let wide: u128 = 10 * f;
    let d: u128 = unit as u128;
    let q: u128 = wide / d;
    let r: u128 = wide % d;
    let tenths: u128 = if 2 * r > d || (2 * r == d && q % 2 == 1) {
        q + 1
    } else {
        q
    };
    let mut s = text::write_decimal((tenths / 10) as u64);
    s.push('.');
    s.append(text::write_decimal((tenths % 10) as u64).as_str());
    assert(s@ =~= one_decimal(n as int, unit as int));
    s
}

/// A size for people to read. Those that matter here go from bytes to megabytes.
pub fn human(bytes: usize) -> (s: String)
    ensures
        s@ == size_text(bytes as int),
{
    let n: u64 = bytes as u64;
    if n >= 0x100000 {
        glue(with_one_decimal(n, 0x100000).as_str(), " MB")
    } else if n >= 0x400 {
        glue(with_one_decimal(n, 0x400).as_str(), " KB")
    } else {
        glue(text::write_decimal(n).as_str(), " B")
    }
}

/// The entries drawn in a bar come one after the other.
proof fn lemma_items_in_order(
    entries: Seq<(Action, Seq<char>)>,
    ws: Seq<u16>,
    bar: Rect,
    j: int,
    k: int,
)
    requires
        0 <= j < k < ui::laid_out(entries, ws, bar, 0, bar.x as int).len(),
    ensures
        ({
            let items = ui::laid_out(entries, ws, bar, 0, bar.x as int);
            items[j].rect.x + items[j].rect.width < items[k].rect.x
        }),
    decreases k - j,
{
    ui::items_lie_apart_in_the_bar(entries, ws, bar, 0, bar.x as int, j);
    if j + 1 < k {
        lemma_items_in_order(entries, ws, bar, j + 1, k);
        ui::items_lie_apart_in_the_bar(entries, ws, bar, 0, bar.x as int, j + 1);
    }
}

/// A click on a button that was drawn hits that button and no other.
pub proof fn click_hits_the_drawn_button(
    current: Option<TargetView>,
    count: int,
    bar: Rect,
    pos: Position,
    k: int,
)
    requires
        0 <= k < ui::bar_items(current, count, bar).len(),
        ui::bar_items(current, count, bar)[k].rect.holds(pos),
    ensures
        button_at(
            ui::hit_zones(ui::BarView::Buttons(ui::bar_items(current, count, bar))),
            pos,
            0,
        ) == Some(ui::bar_items(current, count, bar)[k].action),
{
    lemma_button_at(current, count, bar, pos, k, 0);
}

proof fn lemma_button_at(
    current: Option<TargetView>,
    count: int,
    bar: Rect,
    pos: Position,
    k: int,
    i: int,
)
    requires
        0 <= i <= k < ui::bar_items(current, count, bar).len(),
        ui::bar_items(current, count, bar)[k].rect.holds(pos),
    ensures
        button_at(
            ui::hit_zones(ui::BarView::Buttons(ui::bar_items(current, count, bar))),
            pos,
            i,
        ) == Some(ui::bar_items(current, count, bar)[k].action),
    decreases k - i,
{
    let entries = ui::bar_entries(current, count, bar.width as int);
    let items = ui::bar_items(current, count, bar);
    let zones = ui::hit_zones(ui::BarView::Buttons(items));
    assert(zones[i] == (items[i].action, items[i].rect));
    if i < k {
        lemma_items_in_order(entries, ui::label_columns(entries), bar, i, k);
        lemma_button_at(current, count, bar, pos, k, i + 1);
    }
}

/// The state once an effect is done, where the effect is a save.
pub open spec fn settled(
    step: (AppView, EffectView),
    outcome: Result<Option<i128>, Seq<char>>,
    now: u64,
) -> AppView {
    match step.1 {
        EffectView::Save { after, .. } => step.0.after_save(outcome, after, now).0,
        _ => step.0,
    }
}

proof fn lemma_buffer_of_shows(text: Seq<char>)
    ensures
        buffer_of(text).valid(),
        buffer_of(text).text() == text,
{
    text::lemma_split(text);
    text::lemma_join_of_split(text);
}

/// What a clear moved aside, one undo brings back, whatever became of the save
/// in between.
pub proof fn undo_restores_a_clear(
    v: AppView,
    outcome: Result<Option<i128>, Seq<char>>,
    t1: u64,
    t2: u64,
    t3: u64,
)
    requires
        v.valid(),
        v.buf.text().len() > 0,
    ensures
        settled(v.clear(t1), outcome, t2).buf == blank_buffer(),
        settled(v.clear(t1), outcome, t2).undo(t3).0.buf.text() == v.buf.text(),
        settled(v.clear(t1), outcome, t2).undo(t3).0.stash is None,
{
    lemma_buffer_of_shows(v.buf.text());
}

/// A text that an agent took is moved aside like a cleared one: the pane is
/// empty, and one undo brings the text back.
pub proof fn undo_restores_a_send(
    v: AppView,
    target: TargetView,
    outcome: Result<Option<i128>, Seq<char>>,
    t1: u64,
    t2: u64,
    t3: u64,
)
    requires
        v.valid(),
    ensures
        ({
            let text = v.buf.text();
            let after = settled(v.delivered(Ok(()), target, text, t1), outcome, t2);
            &&& after.buf == blank_buffer()
            &&& after.stash == Some(text)
            &&& after.undo(t3).0.buf.text() == text
        }),
{
    lemma_buffer_of_shows(v.buf.text());
}

/// The focus goes to the agent that got the text, and only once the text was
/// moved aside and its save tried.
pub proof fn focus_follows_the_text(
    v: AppView,
    target: TargetView,
    text: Seq<char>,
    outcome: Result<Option<i128>, Seq<char>>,
    t1: u64,
    t2: u64,
)
    ensures
        ({
            let (w, e) = v.delivered(Ok(()), target, text, t1);
            let last = match e {
                EffectView::Save { after, .. } => w.after_save(outcome, after, t2).1,
                other => other,
            };
            last == EffectView::Focus { pane_id: target.pane_id }
        }),
{
}

/// A send that fails costs nothing: only the message changes, nothing is moved
/// aside, and no focus goes anywhere.
pub proof fn failed_send_keeps_everything(
    v: AppView,
    error: Seq<char>,
    target: TargetView,
    text: Seq<char>,
    now: u64,
)
    ensures
        v.delivered(Err(error), target, text, now) == (
            v.say("emit failed: "@ + error, now),
            EffectView::Nothing,
        ),
        v.delivered(Err(error), target, text, now).0.buf == v.buf,
        v.delivered(Err(error), target, text, now).0.stash == v.stash,
{
}

proof fn lemma_index_from(targets: Seq<TargetView>, pane_id: Seq<char>, i: int)
    requires
        0 <= i,
        targets.len() <= usize::MAX,
    ensures
        index_from(targets, pane_id, i) matches Some(k) ==> i <= k < targets.len()
            && targets[k as int].pane_id == pane_id,
        index_from(targets, pane_id, i) is None ==> forall|j: int|
            i <= j < targets.len() ==> (#[trigger] targets[j]).pane_id != pane_id,
    decreases targets.len() - i,
{
    if i < targets.len() && targets[i].pane_id != pane_id {
        lemma_index_from(targets, pane_id, i + 1);
    }
}

/// The text goes to the pane that was on display when it was sent, as that pane
/// is listed at that moment, or to nobody: no other target takes its place.
pub proof fn text_goes_where_it_was_meant(
    v: AppView,
    reply: Option<Option<JsonView>>,
    t1: u64,
    t2: u64,
)
    requires
        v.valid(),
        v.refreshed(reply).targets.len() <= usize::MAX,
    ensures
        v.send(t1).1 matches EffectView::ListAgents { intended, text } ==> {
            &&& v.current() matches Some(t) && intended == t.pane_id
            &&& text == v.buf.text()
            &&& v.listed(reply, intended, text, t2).1 matches EffectView::Deliver {
                target,
                text: sent,
            } ==> target.pane_id == intended && sent == text && v.refreshed(
                reply,
            ).targets.contains(target)
            &&& v.listed(reply, intended, text, t2).0.buf == v.buf
            &&& v.listed(reply, intended, text, t2).0.stash == v.stash
        },
{
    if let EffectView::ListAgents { intended, text } = v.send(t1).1 {
        let next = v.refreshed(reply);
        lemma_index_from(next.targets, intended, 0);
        if let Some(i) = index_from(next.targets, intended, 0) {
            assert(next.targets.contains(next.targets[i as int]));
        }
    }
}

/// Nothing is ever handed to an agent of another tab, nor to the pane itself, nor
/// by a pane without a tab.
pub proof fn delivery_stays_in_the_tab(
    v: AppView,
    parsed: Option<JsonView>,
    intended: Seq<char>,
    text: Seq<char>,
    now: u64,
)
    requires
        v.refreshed(Some(parsed)).targets.len() <= usize::MAX,
    ensures
        v.listed(Some(parsed), intended, text, now).1 matches EffectView::Deliver {
            target,
            text: sent,
        } ==> {
            &&& v.tab_id is Some
            &&& v.pane_id != Some(target.pane_id)
            &&& (json::result_list(parsed, "agents"@) matches Some(list) && exists|i: int|
                0 <= i < list.len() && agents::present(#[trigger] list[i], "tab_id"@) == v.tab_id
                    && agents::present(list[i], "pane_id"@) == Some(target.pane_id))
        },
{
    let next = v.refreshed(Some(parsed));
    lemma_index_from(next.targets, intended, 0);
    if let EffectView::Deliver { target, .. } = v.listed(Some(parsed), intended, text, now).1 {
        assert(next.targets.contains(target));
        agents::targets_live_in_the_tab(parsed, v.tab_id, v.pane_id, target);
    }
}

/// Whether the choice is sound: a target is chosen exactly where there are any,
/// and it is one of them.
pub open spec fn sound_choice(v: AppView) -> bool {
    &&& v.target is Some <==> v.targets.len() > 0
    &&& v.target matches Some(i) ==> i < v.targets.len()
}

/// A refresh leaves a sound choice, and the chosen target stays chosen as long as
/// its pane is listed, wherever it now stands in the list.
pub proof fn refresh_keeps_the_choice(v: AppView, parsed: Option<JsonView>)
    requires
        v.refreshed(Some(parsed)).targets.len() <= usize::MAX,
    ensures
        sound_choice(v.refreshed(Some(parsed))),
        v.current() matches Some(t) ==> ((exists|k: int|
            0 <= k < v.refreshed(Some(parsed)).targets.len() && (#[trigger] v.refreshed(
                Some(parsed),
            ).targets[k]).pane_id == t.pane_id) ==> (v.refreshed(
            Some(parsed),
        ).current() matches Some(u) && u.pane_id == t.pane_id)),
        v.refreshed(None) == v,
{
    let next = v.refreshed(Some(parsed));
    if let Some(t) = v.current() {
        lemma_index_from(next.targets, t.pane_id, 0);
    }
}

/// Cycling some times over.
pub open spec fn cycled_times(v: AppView, n: nat) -> AppView
    decreases n,
{
    if n == 0 {
        v
    } else {
        cycled_times(v, (n - 1) as nat).cycled()
    }
}

/// Cycling changes the choice alone: neither the text nor any message. It keeps
/// a sound choice sound, and goes round: after as many steps as there are
/// targets, the first choice is back.
pub proof fn cycling_goes_round(v: AppView)
    requires
        sound_choice(v),
        v.targets.len() <= usize::MAX,
    ensures
        v.cycled() == (AppView { target: v.cycled().target, ..v }),
        sound_choice(v.cycled()),
        cycled_times(v, v.targets.len()) == v,
{
    let n = v.targets.len();
    if n >= 2 {
        lemma_cycled_times(v, n);
    } else {
        lemma_cycled_idle(v, n);
    }
}

proof fn lemma_cycled_idle(v: AppView, k: nat)
    requires
        v.targets.len() < 2,
    ensures
        cycled_times(v, k) == v,
    decreases k,
{
    if k > 0 {
        lemma_cycled_idle(v, (k - 1) as nat);
    }
}

proof fn lemma_cycled_times(v: AppView, k: nat)
    requires
        sound_choice(v),
        2 <= v.targets.len() <= usize::MAX,
        k <= v.targets.len(),
    ensures
        ({
            let n = v.targets.len();
            let i = v.target->0;
            let at = if i + k < n {
                i + k
            } else {
                i + k - n
            };
            cycled_times(v, k) == (AppView { target: Some(at as usize), ..v })
        }),
    decreases k,
{
    if k > 0 {
        lemma_cycled_times(v, (k - 1) as nat);
    }
}

/// A pane with keystrokes to save is never overwritten by what others wrote to
/// the file, and neither is one whose file has not changed.
pub proof fn unsaved_text_is_never_overwritten(
    v: AppView,
    modified: Option<i128>,
    content: Seq<char>,
)
    ensures
        v.dirty ==> v.after_watch(modified, content) == v,
        (v.store matches Some(s) && s.seen == modified) ==> v.after_watch(modified, content) == v,
        v.after_watch(modified, content).buf != v.buf ==> v.after_watch(modified, content).buf.text()
            == content,
{
    text::lemma_join_of_split(content);
}

/// Our own save does not look like a change made by others, and each change by
/// others is taken up once.
pub proof fn own_save_is_no_change(
    v: AppView,
    modified: Option<i128>,
    content: Seq<char>,
    after: AfterView,
    now: u64,
)
    requires
        v.store is Some,
    ensures
        ({
            let w = v.after_save(Ok(modified), after, now).0;
            w.after_watch(modified, content) == w
        }),
        v.after_watch(modified, content).after_watch(modified, content) == v.after_watch(
            modified,
            content,
        ),
{
}

/// A save that fails loses nothing: the text stays, and stays to be saved.
pub proof fn failed_save_keeps_the_text(v: AppView, error: Seq<char>, after: AfterView, now: u64)
    ensures
        v.after_save(Err(error), after, now).0.buf == v.buf,
        v.after_save(Err(error), after, now).0.dirty == v.dirty,
        v.after_save(Err(error), after, now).0.stash == v.stash,
{
}

/// A pane that is opened on what another one saved shows the same text.
pub proof fn reopening_shows_the_saved_text(v: AppView, after: AfterView, now: u64)
    requires
        v.valid(),
        v.dirty,
        v.store is Some,
    ensures
        v.flushed(after, now).1 matches EffectView::Save { text, .. } && buffer_of(text).valid()
            && buffer_of(text).text() == v.buf.text(),
{
    lemma_buffer_of_shows(v.buf.text());
}

/// No change of the text goes unsaved: whatever a key or a click does to it is
/// marked to be saved, where there is a place to save it.
pub proof fn every_change_is_marked(v: AppView, key: KeyEvent, ev: MouseEvent, now: u64)
    requires
        v.valid(),
        v.store is Some,
    ensures
        v.key(key, now).0.buf.text() != v.buf.text() ==> v.key(key, now).0.dirty,
        v.mouse(ev, now).0.buf.text() != v.buf.text() ==> v.mouse(ev, now).0.dirty,
{
    let b = v.buf;
    buffer::left_moves_one_character(b);
    buffer::right_moves_one_character(b);
    buffer::lemma_around_cursor(b);
    lemma_offset_exists(b, buffer::word_start(b.text(), b.offset()));
    lemma_offset_exists(b, buffer::word_end(b.text(), b.offset()));
    lemma_offset_exists(b, 0);
    lemma_offset_exists(b, b.text().len() as int);
    buffer::lemma_word_bounds(b.text(), b.offset());
}

/// Every offset within a text is that of some position.
proof fn lemma_offset_exists(b: BufferView, at: int)
    requires
        b.valid(),
    ensures
        0 <= at <= b.text().len() ==> buffer::buffer_at(b.text(), at).text() == b.text(),
{
    if 0 <= at <= b.text().len() {
        let v = buffer::lemma_reaches(b, at);
        buffer::lemma_buffer_at(v);
    }
}

/// Whether a letter means something with control.
pub open spec fn commanding(c: char) -> bool {
    ||| c == 'e' || c == 'E' || c == 'n' || c == 'N' || c == 'c' || c == 'C' || c == 'l'
    ||| c == 'L' || c == 's' || c == 'S' || c == 'z' || c == 'Z' || c == 'h' || c == 'H'
}

/// A control key without a meaning does nothing at all, not even type its
/// letter, while control with alt types.
pub proof fn unknown_control_keys_are_swallowed(v: AppView, key: KeyEvent, c: char, now: u64)
    requires
        key.kind != KeyEventKind::Release,
        key.modifiers.control,
        key.code == KeyCode::Char(c),
    ensures
        !key.modifiers.alt && !commanding(c) ==> v.key(key, now) == (v, EffectView::Nothing),
        key.modifiers.alt ==> v.key(key, now) == (
            v.edited(v.buf.inserted(text::split(seq![c])), now),
            EffectView::Nothing,
        ),
{
}

/// What the environment says, variable by variable.
#[derive(Debug)]
pub struct Environment {
    pub tab_id: Option<String>,
    pub pane_id: Option<String>,
    /// The state directory the server gives.
    pub state_dir: Option<String>,
    /// The configuration directory.
    pub config: Option<String>,
    pub home: Option<String>,
}

/// How a pane opens: whose it is, where its text is kept, which leftovers to
/// remove first, and which directories to sweep.
#[derive(Debug)]
pub struct Startup {
    pub tab_id: Option<String>,
    pub pane_id: Option<String>,
    pub store: Option<Store>,
    pub purge: Vec<String>,
    pub sweep: Vec<String>,
}

/// A variable that is set and not empty.
pub open spec fn set_view(variable: Option<String>) -> Option<Seq<char>> {
    match variable {
        Some(s) => if s@.len() > 0 {
            Some(s@)
        } else {
            None
        },
        None => None,
    }
}

/// The leftovers to remove: the remembered target from every directory, and the
/// file of the time when there was one buffer for all, but from the server's
/// directory alone.
pub open spec fn leftovers(dirs: Seq<Seq<char>>, herdr: Option<Seq<char>>) -> Seq<Seq<char>> {
    dirs.map_values(|d: Seq<char>| state::joined(d, state::TARGET_FILE@)) + match herdr {
        Some(h) => seq![
            state::joined(h, state::STATE_FILE@),
            state::joined(h, state::TARGET_FILE@),
        ],
        None => Seq::empty(),
    }
}

/// The leftovers to remove from the given directories.
pub fn purge_paths(dirs: &[String], herdr: Option<&str>) -> (paths: Vec<String>)
    ensures
        text::strings(paths@) == leftovers(text::strings(dirs@), text::text_view(herdr)),
{
    let mut paths: Vec<String> = Vec::new();
    let ghost all = text::strings(dirs@).map_values(
        |d: Seq<char>| state::joined(d, state::TARGET_FILE@),
    );
    for i in 0..dirs.len()
        invariant
            all == text::strings(dirs@).map_values(
                |d: Seq<char>| state::joined(d, state::TARGET_FILE@),
            ),
            text::strings(paths@) == all.take(i as int),
    {
        let ghost before = text::strings(paths@);
        paths.push(state::purge_legacy_target(dirs[i].as_str()));
        assert(all[i as int] == state::joined(dirs@[i as int]@, state::TARGET_FILE@));
        assert(text::strings(paths@) =~= before.push(all[i as int]));
        assert(all.take(i + 1) =~= before.push(all[i as int]));
    }
    if let Some(dir) = herdr {
        let mut legacy = state::purge_legacy(dir);
        let ghost first = text::strings(paths@);
        let ghost second = text::strings(legacy@);
        paths.append(&mut legacy);
        assert(text::strings(paths@) =~= first + second);
    }
    assert(text::strings(paths@) =~= leftovers(text::strings(dirs@), text::text_view(herdr)));
    paths
}

fn set(variable: Option<String>) -> (value: Option<String>)
    ensures
        text::string_view(value) == set_view(variable),
{
    match variable {
        Some(s) => if s.as_str().unicode_len() > 0 {
            Some(s)
        } else {
            None
        },
        None => None,
    }
}

/// The directory that the text of a pane is kept in.
pub open spec fn home_of(env: Environment) -> Option<Seq<char>> {
    match set_view(env.state_dir) {
        Some(dir) => Some(dir),
        None => state::fallback_for(text::string_view(env.config), text::string_view(env.home)),
    }
}

/// The file that the text of a pane is kept in.
pub open spec fn own_file(env: Environment) -> Option<Seq<char>> {
    match home_of(env) {
        Some(dir) => Some(state::joined(dir, state::name_for(set_view(env.tab_id)))),
        None => None,
    }
}

/// What is removed as a pane opens: all leftovers but the file it opens.
pub open spec fn purged(env: Environment) -> Seq<Seq<char>> {
    let found = leftovers(homes_of(env), set_view(env.state_dir));
    match own_file(env) {
        Some(own) => state::spared(found, own),
        None => found,
    }
}

/// The directories that may hold buffers.
pub open spec fn homes_of(env: Environment) -> Seq<Seq<char>> {
    state::dirs_of(
        set_view(env.state_dir),
        state::fallback_for(text::string_view(env.config), text::string_view(env.home)),
    )
}

/// Decides how a pane opens. The leftovers go and the directories are swept
/// before anything is read: what is removed is never what is being opened.
pub fn plan_startup(env: Environment) -> (plan: Startup)
    ensures
        text::string_view(plan.tab_id) == set_view(env.tab_id),
        text::string_view(plan.pane_id) == set_view(env.pane_id),
        plan.store is Some <==> own_file(env) is Some,
        plan.store matches Some(s) ==> s@ == (StoreView { path: own_file(env)->0, seen: None }),
        text::strings(plan.purge@) == purged(env),
        plan.store matches Some(s) ==> forall|i: int|
            0 <= i < plan.purge@.len() ==> !state::same_place(
                (#[trigger] plan.purge@[i])@,
                s@.path,
            ),
        text::strings(plan.sweep@) == if home_of(env) is Some {
            homes_of(env)
        } else {
            Seq::empty()
        },
{
    let tab_id = set(env.tab_id);
    let pane_id = set(env.pane_id);
    let herdr = state::herdr_state_dir(env.state_dir);
    let fallback = state::fallback_dir(borrowed(&env.config), borrowed(&env.home));
    let dirs = state::state_dirs(borrowed(&herdr), borrowed(&fallback));
    let found = purge_paths(dirs.as_slice(), borrowed(&herdr));
    let home: Option<&str> = match &herdr {
        Some(dir) => Some(dir.as_str()),
        None => borrowed(&fallback),
    };
    let store = Store::from_env(home, borrowed(&tab_id));
    // Without a tab, the bare file of the server's directory is this pane's own
    // and no leftover.
    let purge: Vec<String> = match &store {
        Some(s) => state::spare(found.as_slice(), s.path()),
        None => found,
    };
    let sweep: Vec<String> = if store.is_some() {
        dirs
    } else {
        Vec::new()
    };
    assert(text::strings(sweep@) =~= if home_of(env) is Some {
        homes_of(env)
    } else {
        Seq::empty()
    });
    Startup { tab_id, pane_id, store, purge, sweep }
}

/// A purge never takes the file of a tab: not from any directory, and however
/// the path of that file is spelled. A tab id holds no slash.
pub proof fn purge_spares_the_tabs(
    dirs: Seq<Seq<char>>,
    herdr: Option<Seq<char>>,
    path: Seq<char>,
    dir: Seq<char>,
    id: Seq<char>,
)
    requires
        leftovers(dirs, herdr).contains(path),
        !id.contains('/'),
    ensures
        !state::same_place(path, state::joined(dir, state::name_for(Some(id)))),
{
    reveal_strlit("target.txt");
    reveal_strlit("scratchpad.txt");
    reveal_strlit("scratchpad-");
    reveal_strlit(".txt");
    let name = state::name_for(Some(id));
    assert(name[0] == state::PREFIX@[0]);
    assert(name[10] == state::PREFIX@[10]);
    assert forall|k: int| 0 <= k < name.len() implies name[k] != '/' by {
        let p = state::PREFIX@.len() as int;
        if k < p {
            assert(name[k] == state::PREFIX@[k]);
        } else if k < p + id.len() {
            assert(name[k] == id[k - p]);
            assert(id.contains(id[k - p]));
        } else {
            assert(name[k] == state::SUFFIX@[k - p - id.len()]);
        }
    }
    state::lemma_last_step(dir, name);
    let all = leftovers(dirs, herdr);
    let i = choose|i: int| 0 <= i < all.len() && all[i] == path;
    if i < dirs.len() {
        assert(path == state::joined(dirs[i], state::TARGET_FILE@));
        state::lemma_last_step(dirs[i], state::TARGET_FILE@);
    } else {
        state::lemma_last_step(herdr->0, state::TARGET_FILE@);
        state::lemma_last_step(herdr->0, state::STATE_FILE@);
    }
}

/// A number of tenths as a text: what precedes the last digit, a dot, the last
/// digit.
pub open spec fn tenths_text(tenths: int) -> Seq<char> {
    text::decimal((tenths / 10) as nat) + seq!['.', (48 + tenths % 10) as char]
}

/// A size below a kilobyte is told exactly. From there on it is told in tenths of
/// a kilobyte, and from a megabyte on in tenths of a megabyte, to the nearest
/// tenth.
pub proof fn sizes_are_told_to_the_nearest_tenth(bytes: int) -> (tenths: int)
    requires
        0 <= bytes < 0x20_0000_0000_0000,
    ensures
        bytes < 1024 ==> size_text(bytes) == text::decimal(bytes as nat) + " B"@,
        1024 <= bytes < 1024 * 1024 ==> size_text(bytes) == tenths_text(tenths) + " KB"@ && -1024
            <= 2 * (10 * bytes - tenths * 1024) <= 1024,
        bytes >= 1024 * 1024 ==> size_text(bytes) == tenths_text(tenths) + " MB"@ && -1024 * 1024
            <= 2 * (10 * bytes - tenths * (1024 * 1024)) <= 1024 * 1024,
{
    assert(to_53_bits(bytes, 1) == bytes) by {
        assert(bytes / 1 == bytes);
        assert(bytes % 1 == 0);
    }
    let unit = if bytes >= 0x100000 {
        0x100000
    } else {
        0x400
    };
    let tenths = text::half_even(10 * bytes, unit);
    text::rounding_is_to_the_nearest(10 * bytes, unit);
    assert(text::decimal((tenths / 10) as nat).push('.').push(text::digit(tenths % 10))
        =~= tenths_text(tenths));
    tenths
}

/// A sweep is abstained from without an answer and on an empty list; any other
/// answer gives the tabs it lists.
pub proof fn silence_makes_no_orphans(reply: Option<Option<JsonView>>)
    ensures
        reply is None ==> tabs_alive(reply) is None,
        reply matches Some(parsed) ==> {
            &&& agents::live_in(parsed).len() == 0 ==> tabs_alive(reply) is None
            &&& agents::live_in(parsed).len() > 0 ==> tabs_alive(reply) == Some(
                agents::live_in(parsed),
            )
        },
{
}

/// What is left over is the remembered target of each directory, and the bare
/// file of the server's directory: all of that, and nothing else.
pub proof fn leftovers_are_the_target_and_the_old_file(
    dirs: Seq<Seq<char>>,
    herdr: Option<Seq<char>>,
    path: Seq<char>,
    k: int,
)
    ensures
        0 <= k < dirs.len() ==> leftovers(dirs, herdr).contains(
            state::joined(dirs[k], "target.txt"@),
        ),
        herdr matches Some(h) ==> leftovers(dirs, herdr).contains(
            state::joined(h, "scratchpad.txt"@),
        ) && leftovers(dirs, herdr).contains(state::joined(h, "target.txt"@)),
        leftovers(dirs, herdr).contains(path) ==> (exists|i: int|
            0 <= i < dirs.len() && path == state::joined(#[trigger] dirs[i], "target.txt"@)) || (
        herdr is Some && (path == state::joined(herdr->0, "scratchpad.txt"@) || path
            == state::joined(herdr->0, "target.txt"@))),
{
    let all = leftovers(dirs, herdr);
    let n = dirs.len() as int;
    if 0 <= k < n {
        assert(all[k] == state::joined(dirs[k], state::TARGET_FILE@));
    }
    if herdr is Some {
        assert(all[n] == state::joined(herdr->0, state::STATE_FILE@));
        assert(all[n + 1] == state::joined(herdr->0, state::TARGET_FILE@));
    }
    if all.contains(path) {
        let i = choose|i: int| 0 <= i < all.len() && all[i] == path;
        if i < n {
            assert(path == state::joined(dirs[i], state::TARGET_FILE@));
        }
    }
}

/// What is removed as a pane opens is all that is left over, but for the file
/// that is being opened.
pub proof fn purge_takes_all_but_the_opened_file(env: Environment, path: Seq<char>)
    ensures
        own_file(env) matches Some(own) ==> (purged(env).contains(path) <==> leftovers(
            homes_of(env),
            set_view(env.state_dir),
        ).contains(path) && !state::same_place(path, own)),
        own_file(env) is None ==> purged(env) == leftovers(
            homes_of(env),
            set_view(env.state_dir),
        ),
{
    if let Some(own) = own_file(env) {
        let found = leftovers(homes_of(env), set_view(env.state_dir));
        state::lemma_spared(found, own, path);
    }
}

/// The text is kept in the server's directory where it gives one, else in the
/// fallback, in the file of the tab.
pub proof fn text_is_kept_in_the_file_of_the_tab(env: Environment)
    ensures
        ({
            let herdr = set_view(env.state_dir);
            let fallback = state::fallback_for(
                text::string_view(env.config),
                text::string_view(env.home),
            );
            let name = state::name_for(set_view(env.tab_id));
            &&& herdr matches Some(h) ==> own_file(env) == Some(state::joined(h, name))
            &&& herdr is None && fallback is Some ==> own_file(env) == Some(
                state::joined(fallback->0, name),
            )
            &&& herdr is None && fallback is None ==> own_file(env) is None
            &&& homes_of(env) == state::dirs_of(herdr, fallback)
            &&& env.state_dir matches Some(d) ==> (herdr is Some <==> d@.len() > 0)
            &&& env.tab_id matches Some(t) ==> (t@.len() > 0 ==> set_view(env.tab_id) == Some(t@))
        }),
{
}

} // verus!
