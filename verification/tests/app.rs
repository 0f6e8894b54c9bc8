//! The event machine of the pane.
use std::cell::RefCell;
use std::ops::{Deref, DerefMut};
use std::rc::Rc;

use herdr_scratchpad::app::{
    human, live_tabs, Action, After, App, Command, Effect, AUTOSAVE_AFTER, HEARTBEAT_EVERY,
    STATUS_FOR, TARGET_REFRESH, WATCH_EVERY, WHEEL_STEP,
};
use herdr_scratchpad::buffer::Buffer;
use herdr_scratchpad::clipboard::MAX_CLIPBOARD_BYTES;
use herdr_scratchpad::input::{
    KeyCode, KeyEvent, KeyEventKind, KeyModifiers, MouseButton, MouseEvent, MouseEventKind,
};
use herdr_scratchpad::json::{parse, Json};
use herdr_scratchpad::state::Store;
use herdr_scratchpad::ui::{BarContent, Rect};

const TEST_TAB: &str = "w1:t1";

const NONE: KeyModifiers = KeyModifiers { shift: false, control: false, alt: false };
const SHIFT: KeyModifiers = KeyModifiers { shift: true, control: false, alt: false };
const CONTROL: KeyModifiers = KeyModifiers { shift: false, control: true, alt: false };
const ALTGR: KeyModifiers = KeyModifiers { shift: false, control: true, alt: true };

fn event(code: KeyCode, modifiers: KeyModifiers) -> KeyEvent {
    KeyEvent { code, modifiers, kind: KeyEventKind::Press }
}

fn key(code: KeyCode) -> KeyEvent {
    event(code, NONE)
}

fn ctrl(c: char) -> KeyEvent {
    event(KeyCode::Char(c), CONTROL)
}

fn ctrl_code(code: KeyCode) -> KeyEvent {
    event(code, CONTROL)
}

/// A server to talk to.
trait Herdr {
    fn agent_list(&self) -> Option<String>;
    fn tab_list(&self) -> Option<String>;
    fn send_input(&self, pane_id: &str, text: &str) -> Result<(), String>;
    fn focus_agent(&self, pane_id: &str);
}

/// A server with fixed answers, which remembers what it was asked to do.
#[derive(Default)]
struct FakeHerdr {
    agents: String,
    tabs: String,
    refuse: Option<String>,
    sent: RefCell<Vec<(String, String)>>,
    focused: RefCell<Vec<String>>,
}

impl Herdr for FakeHerdr {
    fn agent_list(&self) -> Option<String> {
        Some(self.agents.clone())
    }
    fn tab_list(&self) -> Option<String> {
        Some(self.tabs.clone())
    }
    fn send_input(&self, pane_id: &str, text: &str) -> Result<(), String> {
        if let Some(e) = &self.refuse {
            return Err(e.clone());
        }
        self.sent.borrow_mut().push((pane_id.to_owned(), text.to_owned()));
        Ok(())
    }
    fn focus_agent(&self, pane_id: &str) {
        self.focused.borrow_mut().push(pane_id.to_owned());
    }
}

/// A server that never answers.
struct Silent;

impl Herdr for Silent {
    fn agent_list(&self) -> Option<String> {
        None
    }
    fn tab_list(&self) -> Option<String> {
        None
    }
    fn send_input(&self, _: &str, _: &str) -> Result<(), String> {
        Err("unreachable".to_owned())
    }
    fn focus_agent(&self, _: &str) {}
}

/// A pane with a server, which does at once what the pane asks for.
struct Bench {
    app: App,
    herdr: Rc<dyn Herdr>,
    now: u64,
}

impl Deref for Bench {
    type Target = App;
    fn deref(&self) -> &App {
        &self.app
    }
}

impl DerefMut for Bench {
    fn deref_mut(&mut self) -> &mut App {
        &mut self.app
    }
}

impl Bench {
    fn headless(text: &str) -> Bench {
        Bench::with_herdr(text, Rc::new(Silent))
    }

    fn with_herdr(text: &str, herdr: Rc<dyn Herdr>) -> Bench {
        let mut app = App::new(None, None, None, None, Some(TEST_TAB.to_owned()), 0);
        app.buf = Buffer::from_text(text);
        Bench { app, herdr, now: 0 }
    }

    fn perform(&mut self, effect: Effect) {
        let now = self.now;
        let next = match effect {
            Effect::Save { after, .. } => self.app.saved(Ok(None), after, now),
            Effect::ListAgents { intended, text } => {
                let reply = self.herdr.agent_list();
                self.app.send_listed(reply.as_deref(), intended, text, now)
            }
            Effect::Deliver { target, text } => {
                let outcome = self.herdr.send_input(&target.pane_id, &text);
                self.app.send_delivered(outcome, target, text, now)
            }
            Effect::Focus { pane_id } => {
                self.herdr.focus_agent(&pane_id);
                Effect::Nothing
            }
            Effect::Refresh => {
                self.refresh_targets();
                Effect::Nothing
            }
            _ => return,
        };
        self.perform(next);
    }

    fn refresh_targets(&mut self) {
        let reply = self.herdr.agent_list();
        self.app.refresh_targets(reply.as_deref());
    }

    fn on_key(&mut self, key: KeyEvent) {
        let effect = self.app.on_key(key, self.now);
        self.perform(effect);
    }

    fn on_mouse(&mut self, ev: MouseEvent) {
        let effect = self.app.on_mouse(ev, self.now);
        self.perform(effect);
    }

    fn on_paste(&mut self, text: &str) {
        self.app.on_paste(text, self.now);
    }
}

fn text_of(app: &App) -> String {
    app.buf.text()
}

fn agents_json(entries: &[(&str, &str, &str)]) -> String {
    let list: Vec<String> = entries
        .iter()
        .map(|(pane_id, agent, tab_id)| {
            format!(r#"{{"pane_id":"{pane_id}","agent":"{agent}","tab_id":"{tab_id}"}}"#)
        })
        .collect();
    format!(r#"{{"result":{{"agents":[{}]}}}}"#, list.join(","))
}

fn tabs_json(ids: &[&str]) -> String {
    let list: Vec<String> = ids.iter().map(|id| format!(r#"{{"tab_id":"{id}"}}"#)).collect();
    format!(r#"{{"result":{{"tabs":[{}]}}}}"#, list.join(","))
}

/// Two agents in the tab, `w1:p1` and `w1:p2`.
fn two_agents(refuse: Option<&str>) -> FakeHerdr {
    FakeHerdr {
        agents: agents_json(&[("w1:p1", "hermes", TEST_TAB), ("w1:p2", "codex", TEST_TAB)]),
        tabs: tabs_json(&[TEST_TAB]),
        refuse: refuse.map(str::to_owned),
        ..Default::default()
    }
}

fn wired(text: &str, refuse: Option<&str>) -> Bench {
    wired_on(text, Rc::new(two_agents(refuse)))
}

fn wired_on(text: &str, herdr: Rc<FakeHerdr>) -> Bench {
    let mut app = Bench::with_herdr(text, herdr);
    app.refresh_targets();
    app
}

/// A server without a single agent.
fn wired_empty(text: &str) -> Bench {
    let mut app = Bench::with_herdr(
        text,
        Rc::new(FakeHerdr {
            agents: agents_json(&[]),
            tabs: tabs_json(&[TEST_TAB]),
            ..Default::default()
        }),
    );
    app.refresh_targets();
    app
}

fn status_of(app: &App) -> String {
    app.status.as_ref().map(|(m, _)| m.clone()).unwrap_or_default()
}

#[test]
fn typing_inserts_text() {
    let mut app = Bench::headless("");
    app.on_key(key(KeyCode::Char('a')));
    app.on_key(key(KeyCode::Char('b')));
    assert_eq!(text_of(&app), "ab");
    assert!(app.dirty);
}

#[test]
fn key_release_is_ignored() {
    let mut app = Bench::headless("");
    let mut k = key(KeyCode::Char('a'));
    k.kind = KeyEventKind::Release;
    app.on_key(k);
    assert_eq!(text_of(&app), "");
}

#[test]
fn altgr_types_a_character_instead_of_running_a_command() {
    let mut app = Bench::headless("");
    app.on_key(event(KeyCode::Char('c'), ALTGR));
    assert_eq!(text_of(&app), "c");
}

#[test]
fn clear_empties_and_stashes() {
    let mut app = Bench::headless("du texte");
    app.on_key(ctrl('l'));
    assert_eq!(text_of(&app), "");
    assert_eq!(app.stash.as_deref(), Some("du texte"));
}

#[test]
fn clear_needs_no_confirmation() {
    let mut app = Bench::headless("du texte");
    app.on_key(ctrl('l'));
    assert_eq!(text_of(&app), "");
}

#[test]
fn undo_restores_the_cleared_text() {
    let mut app = Bench::headless("du texte");
    app.on_key(ctrl('l'));
    app.on_key(ctrl('z'));
    assert_eq!(text_of(&app), "du texte");
}

#[test]
fn undo_without_a_stash_says_so_and_changes_nothing() {
    let mut app = Bench::headless("intact");
    app.on_key(ctrl('z'));
    assert_eq!(text_of(&app), "intact");
    assert!(app.status.as_ref().unwrap().0.contains("nothing"));
}

#[test]
fn the_stash_holds_only_the_last_clear() {
    let mut app = Bench::headless("premier");
    app.on_key(ctrl('l'));
    app.on_paste("second");
    app.on_key(ctrl('l'));
    app.on_key(ctrl('z'));
    assert_eq!(text_of(&app), "second");
}

#[test]
fn undo_is_not_an_edit_undo() {
    let mut app = Bench::headless("");
    app.on_key(key(KeyCode::Char('a')));
    app.on_key(ctrl('z'));
    assert_eq!(text_of(&app), "a");
}

#[test]
fn clearing_an_empty_buffer_does_not_destroy_the_stash() {
    let mut app = Bench::headless("récupérable");
    app.on_key(ctrl('l'));
    app.on_key(ctrl('l'));
    app.on_key(ctrl('z'));
    assert_eq!(text_of(&app), "récupérable");
}

#[test]
fn paste_arrives_as_one_block() {
    let mut app = Bench::headless("");
    app.on_paste("une\nligne collée");
    assert_eq!(text_of(&app), "une\nligne collée");
}

#[test]
fn copy_of_an_empty_buffer_reports_nothing_to_copy() {
    let mut app = Bench::headless("");
    app.on_key(ctrl('c'));
    assert!(app.status.as_ref().unwrap().0.contains("nothing to copy"));
}

#[test]
fn copy_beyond_the_limit_points_at_the_export() {
    let mut app = Bench::headless(&"x".repeat(MAX_CLIPBOARD_BYTES + 1));
    app.on_key(ctrl('c'));
    let message = &app.status.as_ref().unwrap().0;
    assert!(message.contains("^S"), "{message}");
}

#[test]
fn shift_click_is_left_to_the_terminal() {
    let mut app = Bench::headless("du texte");
    app.buttons = vec![(Action::Command(Command::Clear), Rect { x: 0, y: 0, width: 8, height: 1 })];
    app.on_mouse(MouseEvent {
        kind: MouseEventKind::Down(MouseButton::Left),
        column: 1,
        row: 0,
        modifiers: SHIFT,
    });
    assert_eq!(text_of(&app), "du texte");
}

#[test]
fn clicking_a_button_runs_its_command() {
    let mut app = Bench::headless("du texte");
    app.buttons = vec![(Action::Command(Command::Clear), Rect { x: 0, y: 0, width: 8, height: 1 })];
    app.on_mouse(MouseEvent {
        kind: MouseEventKind::Down(MouseButton::Left),
        column: 1,
        row: 0,
        modifiers: NONE,
    });
    assert_eq!(text_of(&app), "");
}

#[test]
fn clicking_beside_a_button_does_nothing() {
    let mut app = Bench::headless("du texte");
    app.buttons = vec![(Action::Command(Command::Clear), Rect { x: 0, y: 0, width: 8, height: 1 })];
    app.on_mouse(MouseEvent {
        kind: MouseEventKind::Down(MouseButton::Left),
        column: 40,
        row: 0,
        modifiers: NONE,
    });
    assert_eq!(text_of(&app), "du texte");
}

#[test]
fn clicking_in_the_text_places_the_cursor() {
    let mut app = Bench::headless("un deux");
    app.body = Rect { x: 0, y: 0, width: 10, height: 3 };
    app.on_mouse(MouseEvent {
        kind: MouseEventKind::Down(MouseButton::Left),
        column: 3,
        row: 0,
        modifiers: NONE,
    });
    app.on_key(key(KeyCode::Char('X')));
    assert_eq!(text_of(&app), "un Xdeux");
}

#[test]
fn clicking_a_button_does_not_move_the_cursor() {
    let mut app = Bench::headless("texte");
    app.body = Rect { x: 0, y: 0, width: 20, height: 3 };
    app.buttons = vec![(Action::CycleTarget, Rect { x: 0, y: 0, width: 8, height: 1 })];
    app.on_mouse(MouseEvent {
        kind: MouseEventKind::Down(MouseButton::Left),
        column: 1,
        row: 0,
        modifiers: NONE,
    });
    app.on_key(key(KeyCode::Char('X')));
    assert_eq!(
        text_of(&app),
        "texteX"
    );
}

#[test]
fn ctrl_arrow_jumps_a_word() {
    let mut app = Bench::headless("un deux");
    app.on_key(ctrl_code(KeyCode::Left));
    app.on_key(key(KeyCode::Char('X')));
    assert_eq!(text_of(&app), "un Xdeux");
}

#[test]
fn ctrl_home_and_end_jump_to_the_ends_of_the_buffer() {
    let mut app = Bench::headless("un\ndeux\ntrois");
    app.on_key(ctrl_code(KeyCode::Home));
    app.on_key(key(KeyCode::Char('X')));
    app.on_key(ctrl_code(KeyCode::End));
    app.on_key(key(KeyCode::Char('Y')));
    assert_eq!(text_of(&app), "Xun\ndeux\ntroisY");
}

#[test]
fn ctrl_backspace_deletes_the_word_on_the_left() {
    let mut app = Bench::headless("un deux");
    app.on_key(ctrl_code(KeyCode::Backspace));
    assert_eq!(text_of(&app), "un ");
}

#[test]
fn ctrl_h_is_the_same_as_ctrl_backspace() {
    let mut app = Bench::headless("un deux");
    app.on_key(ctrl('h'));
    assert_eq!(
        text_of(&app),
        "un "
    );
}

#[test]
fn an_unknown_ctrl_combination_does_not_type_its_letter() {
    let mut app = Bench::headless("");
    app.on_key(ctrl('d'));
    assert_eq!(text_of(&app), "");
}

#[test]
fn wheel_scrolls_without_touching_the_text() {
    let mut app = Bench::headless("a\nb\nc\nd\ne\nf\ng\nh");
    app.total_rows = 8;
    app.body = Rect { x: 0, y: 0, width: 10, height: 2 };
    app.on_mouse(MouseEvent {
        kind: MouseEventKind::ScrollDown,
        column: 0,
        row: 0,
        modifiers: NONE,
    });
    assert_eq!(app.scroll, WHEEL_STEP);
    assert_eq!(text_of(&app), "a\nb\nc\nd\ne\nf\ng\nh");
}

#[test]
fn wheel_does_not_scroll_past_the_end() {
    let mut app = Bench::headless("a\nb");
    app.total_rows = 2;
    app.body = Rect { x: 0, y: 0, width: 10, height: 2 };
    for _ in 0..10 {
        app.on_mouse(MouseEvent {
            kind: MouseEventKind::ScrollDown,
            column: 0,
            row: 0,
            modifiers: NONE,
        });
    }
    assert_eq!(app.scroll, 0);
}

#[test]
fn there_is_no_quit_key() {
    let mut app = Bench::headless("");
    for c in ['q', 'x', 'd', 'w'] {
        app.on_key(ctrl(c));
        app.on_key(key(KeyCode::Char(c)));
    }
    app.on_key(key(KeyCode::Esc));
    assert_eq!(text_of(&app), "qxdw");
}

#[test]
fn human_sizes_are_readable() {
    assert_eq!(human(0), "0 B");
    assert_eq!(human(512), "512 B");
    assert_eq!(human(1024), "1.0 KB");
    assert_eq!(human(1024 * 1024), "1.0 MB");
}

#[test]
fn sending_an_empty_buffer_clears_nothing_and_says_so() {
    let mut app = wired("", None);
    app.on_key(ctrl('e'));
    assert!(status_of(&app).contains("nothing to emit"), "{}", status_of(&app));
    assert!(app.stash.is_none());
}

#[test]
fn a_successful_send_drops_the_text_on_the_displayed_target() {
    let mut app = wired("à envoyer", None);
    app.on_key(ctrl('e'));
    assert_eq!(text_of(&app), "");
    assert!(status_of(&app).starts_with("emitted → hermes"), "{}", status_of(&app));
}

#[test]
fn a_successful_send_clears_and_undo_restores() {
    let mut app = wired("à envoyer", None);
    app.on_key(ctrl('e'));
    app.on_key(ctrl('z'));
    assert_eq!(text_of(&app), "à envoyer");
}

#[test]
fn a_failed_send_does_not_clear() {
    let mut app = wired("précieux", Some("pane_not_found"));
    app.on_key(ctrl('e'));
    assert_eq!(text_of(&app), "précieux");
    assert!(app.stash.is_none());
    assert!(status_of(&app).contains("failed"), "{}", status_of(&app));
}

#[test]
fn without_an_agent_the_send_refuses_and_does_not_clear() {
    let mut app = wired_empty("précieux");
    app.on_key(ctrl('e'));
    assert_eq!(text_of(&app), "précieux");
    assert!(status_of(&app).contains("no agent"), "{}", status_of(&app));
}

#[test]
fn a_vanished_target_cancels_the_send_instead_of_picking_another() {
    let mut app = wired("précieux", None);
    assert_eq!(app.current_target().unwrap().pane_id, "w1:p1");

    app.herdr = Rc::new(FakeHerdr {
        agents: agents_json(&[("w1:p2", "codex", TEST_TAB)]),
        tabs: tabs_json(&[TEST_TAB]),
        ..Default::default()
    });
    app.on_key(ctrl('e'));

    assert_eq!(text_of(&app), "précieux");
    assert!(status_of(&app).contains("not found"), "{}", status_of(&app));
}

#[test]
fn a_successful_send_focuses_the_agent_that_got_the_text() {
    let herdr = Rc::new(two_agents(None));
    let mut app = wired_on("à envoyer", herdr.clone());
    app.on_key(ctrl('n'));
    let meant = app.current_target().unwrap().pane_id.clone();
    app.on_key(ctrl('e'));

    assert_eq!(
        herdr.sent.borrow().clone(),
        vec![(meant.clone(), "à envoyer".to_owned())]
    );
    assert_eq!(herdr.focused.borrow().clone(), vec![meant]);
}

#[test]
fn a_failed_send_focuses_nothing() {
    let herdr = Rc::new(two_agents(Some("pane_not_found")));
    let mut app = wired_on("précieux", herdr.clone());
    app.on_key(ctrl('e'));
    assert!(herdr.focused.borrow().is_empty());
    assert_eq!(text_of(&app), "précieux");
}

#[test]
fn an_empty_buffer_focuses_nothing() {
    let herdr = Rc::new(two_agents(None));
    let mut app = wired_on("", herdr.clone());
    app.on_key(ctrl('e'));
    assert!(herdr.focused.borrow().is_empty());
}

#[test]
fn cycling_changes_the_target_without_touching_the_text() {
    let mut app = wired("intact", None);
    assert_eq!(app.current_target().unwrap().agent, "hermes");
    app.on_key(ctrl('n'));
    assert_eq!(app.current_target().unwrap().agent, "codex");
    app.on_key(ctrl('n'));
    assert_eq!(app.current_target().unwrap().agent, "hermes");
    assert_eq!(text_of(&app), "intact");
}

#[test]
fn cycling_does_not_hide_the_bar() {
    let mut app = wired("x", None);
    app.on_key(ctrl('n'));
    assert!(app.status.is_none());
}

#[test]
fn cycling_without_an_agent_stays_silent() {
    let mut app = wired_empty("x");
    app.on_key(ctrl('n'));
    assert!(app.status.is_none());
    assert!(app.current_target().is_none());
}

#[test]
fn two_clicks_on_the_target_area_advance_twice() {
    let mut app = wired("x", None);
    app.buttons = vec![(Action::CycleTarget, Rect { x: 0, y: 0, width: 12, height: 1 })];
    let start = app.current_target().unwrap().pane_id.clone();

    for _ in 0..2 {
        app.on_mouse(MouseEvent {
            kind: MouseEventKind::Down(MouseButton::Left),
            column: 1,
            row: 0,
            modifiers: NONE,
        });
    }
    assert_eq!(app.current_target().unwrap().pane_id, start);
    assert!(app.status.is_none());
}

#[test]
fn the_cycled_target_survives_a_refresh() {
    let mut app = wired("x", None);
    app.on_key(ctrl('n'));
    app.refresh_targets();
    assert_eq!(app.current_target().unwrap().agent, "codex");
}

#[test]
fn a_silent_server_leaves_the_previous_list_in_place() {
    let mut app = wired("x", None);
    app.herdr = Rc::new(Silent);
    app.refresh_targets();
    assert_eq!(app.current_target().unwrap().agent, "hermes");
}

#[test]
fn clicking_the_target_area_cycles_and_clicking_send_sends() {
    let mut app = wired("à envoyer", None);
    app.buttons = vec![
        (Action::Command(Command::Send), Rect { x: 0, y: 0, width: 10, height: 1 }),
        (Action::CycleTarget, Rect { x: 11, y: 0, width: 12, height: 1 }),
    ];

    app.on_mouse(MouseEvent {
        kind: MouseEventKind::Down(MouseButton::Left),
        column: 12,
        row: 0,
        modifiers: NONE,
    });
    assert_eq!(app.current_target().unwrap().agent, "codex");
    assert_eq!(text_of(&app), "à envoyer");

    app.on_mouse(MouseEvent {
        kind: MouseEventKind::Down(MouseButton::Left),
        column: 3,
        row: 0,
        modifiers: NONE,
    });
    assert_eq!(text_of(&app), "");
    assert!(status_of(&app).contains("codex"), "{}", status_of(&app));
}

#[test]
fn shift_click_on_the_send_bar_stays_inert() {
    let mut app = wired("intact", None);
    app.buttons = vec![
        (Action::Command(Command::Send), Rect { x: 0, y: 0, width: 10, height: 1 }),
    ];
    app.on_mouse(MouseEvent {
        kind: MouseEventKind::Down(MouseButton::Left),
        column: 1,
        row: 0,
        modifiers: SHIFT,
    });
    assert_eq!(text_of(&app), "intact");
}

#[test]
fn the_current_pane_never_offers_itself_as_a_target() {
    let mut app = Bench::with_herdr(
        "x",
        Rc::new(FakeHerdr {
            agents: agents_json(&[("w1:p9", "hermes", TEST_TAB)]),
            tabs: tabs_json(&[TEST_TAB]),
            ..Default::default()
        }),
    );
    app.pane_id = Some("w1:p9".into());
    app.refresh_targets();
    assert!(app.current_target().is_none());
}

#[test]
fn the_default_target_is_the_first_agent_in_my_tab() {
    let app = wired("x", None);
    assert_eq!(app.current_target().unwrap().pane_id, "w1:p1");
}

#[test]
fn an_agent_from_another_tab_is_never_a_target() {
    let mut app = Bench::with_herdr(
        "précieux",
        Rc::new(FakeHerdr {
            agents: agents_json(&[("w9:p1", "hermes", "w9:t9")]),
            tabs: tabs_json(&[TEST_TAB, "w9:t9"]),
            ..Default::default()
        }),
    );
    app.refresh_targets();

    assert!(app.targets.is_empty());
    app.on_key(ctrl('e'));
    assert_eq!(text_of(&app), "précieux");
}

#[test]
fn cycling_does_nothing_and_says_nothing_with_a_single_agent() {
    let mut app = Bench::with_herdr(
        "x",
        Rc::new(FakeHerdr {
            agents: agents_json(&[("w1:p1", "hermes", TEST_TAB)]),
            tabs: tabs_json(&[TEST_TAB]),
            ..Default::default()
        }),
    );
    app.refresh_targets();

    app.on_key(ctrl('n'));
    assert_eq!(app.current_target().unwrap().pane_id, "w1:p1");
    assert!(app.status.is_none());
}

#[test]
fn the_sweep_keeps_the_live_tabs() {
    let herdr = Rc::new(two_agents(None));
    assert_eq!(live_tabs(herdr.tab_list().as_deref()), Some(vec![TEST_TAB.to_owned()]));
}

#[test]
fn the_sweep_abstains_when_tab_list_returns_an_empty_list() {
    let herdr = Rc::new(FakeHerdr {
        tabs: tabs_json(&[]),
        ..Default::default()
    });
    assert_eq!(live_tabs(herdr.tab_list().as_deref()), None);
}

#[test]
fn the_sweep_abstains_when_the_server_is_silent() {
    assert_eq!(live_tabs(Silent.tab_list().as_deref()), None);
}

#[test]
fn the_sweep_abstains_on_unreadable_json() {
    let herdr = Rc::new(FakeHerdr {
        tabs: "pas du json".into(),
        ..Default::default()
    });
    assert_eq!(live_tabs(herdr.tab_list().as_deref()), None);
}

#[test]
fn altgr_does_not_send() {
    let mut app = wired("intact", None);
    app.on_key(event(KeyCode::Char('e'), ALTGR));
    assert_eq!(text_of(&app), "intacte");
}

fn stored(text: &str) -> App {
    let store = Store::at("/s/scratchpad-w1:t1.txt".to_owned());
    App::new(
        Some(store),
        Some(1),
        Some(text.to_owned()),
        Some("w1:p9".to_owned()),
        Some(TEST_TAB.to_owned()),
        0,
    )
}

#[test]
fn a_pane_opens_with_the_text_of_its_file() {
    let app = stored("un\ndeux");
    assert_eq!(text_of(&app), "un\ndeux");
    assert_eq!(app.buf.cursor(), (1, 4));
    assert!(!app.dirty && app.targets.is_empty() && app.target.is_none());
    let app = App::new(None, None, Some("lost".to_owned()), None, None, 7);
    assert_eq!(text_of(&app), "");
    assert_eq!(app.last_edit, 7);
}

#[test]
fn a_keystroke_is_saved_once_it_has_settled() {
    let mut app = stored("");
    app.on_key(key(KeyCode::Char('a')), 10);
    assert!(matches!(app.maybe_flush(10 + AUTOSAVE_AFTER - 1), Effect::Nothing));
    let effect = app.maybe_flush(10 + AUTOSAVE_AFTER);
    let after = match effect {
        Effect::Save { text, after } => {
            assert_eq!(text, "a");
            after
        }
        _ => panic!("a save was due"),
    };
    assert!(app.dirty);
    app.saved(Ok(Some(2)), after, 20);
    assert!(!app.dirty);
    assert!(matches!(app.maybe_flush(u64::MAX), Effect::Nothing));
}

#[test]
fn a_failed_save_is_tried_again() {
    let mut app = stored("");
    app.on_paste("x", 0);
    let effect = app.on_focus_lost(1);
    assert!(matches!(effect, Effect::Save { .. }));
    app.saved(Err("disk full".to_owned()), After::Nothing, 1);
    assert_eq!(status_of(&app), "save failed: disk full");
    assert!(app.dirty);
    assert!(matches!(app.finalize(2), Effect::Save { .. }));
}

#[test]
fn a_saved_pane_has_nothing_to_flush() {
    let mut app = stored("x");
    assert!(matches!(app.flush(0), Effect::Nothing));
    let mut app = Bench::headless("");
    app.on_paste("y");
    assert!(matches!(app.app.flush(0), Effect::Nothing));
    assert!(!app.dirty);
}

#[test]
fn a_clear_is_saved_at_once_and_its_message_comes_last() {
    let mut app = stored("texte");
    let after = match app.on_key(ctrl('L'), 5) {
        Effect::Save { text, after } => {
            assert_eq!(text, "");
            after
        }
        _ => panic!("a save was due"),
    };
    app.saved(Err("no".to_owned()), after, 6);
    assert_eq!(status_of(&app), "cleared · ^Z undoes");
    assert_eq!(app.stash.as_deref(), Some("texte"));
    assert!(app.dirty);
}

#[test]
fn the_messages_of_the_commands() {
    let mut app = Bench::headless("");
    app.on_key(ctrl('l'));
    assert_eq!(status_of(&app), "already empty");
    app.on_key(ctrl('z'));
    assert_eq!(status_of(&app), "nothing to restore");
    app.on_paste("x");
    app.on_key(ctrl('l'));
    app.on_key(ctrl('z'));
    assert_eq!(status_of(&app), "restored");
    let over = MAX_CLIPBOARD_BYTES + 1;
    let mut app = Bench::headless(&"x".repeat(over));
    app.on_key(ctrl('c'));
    assert_eq!(status_of(&app), "192.0 KB > 192.0 KB — ^S writes the file");
}

#[test]
fn a_copy_is_written_out_and_told() {
    let mut app = stored("hello");
    match app.on_key(ctrl('c'), 0) {
        Effect::Copy { sequence, len } => {
            assert_eq!(sequence, "\x1b]52;c;aGVsbG8=\x07");
            app.copied(len, Ok(()), 1);
        }
        _ => panic!("a copy was due"),
    }
    assert_eq!(status_of(&app), "copied · 5 B");
    app.copied(5, Err("closed".to_owned()), 2);
    assert_eq!(status_of(&app), "copy failed: closed");
}

#[test]
fn an_export_tells_where_it_went() {
    let mut app = stored("hello");
    assert!(matches!(app.on_key(ctrl('s'), 0), Effect::Export { ref text } if text == "hello"));
    app.exported(Ok("/tmp/x".to_owned()), 1);
    assert_eq!(status_of(&app), "/tmp/x");
    app.exported(Err("full".to_owned()), 1);
    assert_eq!(status_of(&app), "export failed: full");
}

#[test]
fn the_messages_of_a_send() {
    let mut app = wired("texte", Some("pane_not_found"));
    app.on_key(ctrl('e'));
    assert_eq!(status_of(&app), "emit failed: pane_not_found");
    let mut app = wired("texte", None);
    app.on_key(ctrl('E'));
    assert_eq!(status_of(&app), "emitted → hermes · ^Z undoes");
}

/// The focus comes after the save, so that the save it triggers finds the pane
/// empty.
#[test]
fn the_focus_comes_after_the_save() {
    let mut app = stored("texte");
    app.refresh_targets(Some(&agents_json(&[("w1:p1", "hermes", TEST_TAB)])));
    let reply = agents_json(&[("w1:p1", "hermes", TEST_TAB)]);
    let effect = app.on_key(ctrl('e'), 0);
    let (intended, text) = match effect {
        Effect::ListAgents { intended, text } => (intended, text),
        _ => panic!("a list was due"),
    };
    assert_eq!(intended, "w1:p1");
    let (target, text) = match app.send_listed(Some(&reply), intended, text, 0) {
        Effect::Deliver { target, text } => (target, text),
        _ => panic!("a delivery was due"),
    };
    assert_eq!(text, "texte");
    let after = match app.send_delivered(Ok(()), target, text, 0) {
        Effect::Save { text, after } => {
            assert_eq!(text, "");
            after
        }
        _ => panic!("a save was due"),
    };
    match app.saved(Ok(None), after, 0) {
        Effect::Focus { pane_id } => assert_eq!(pane_id, "w1:p1"),
        _ => panic!("the focus was due"),
    }
}

#[test]
fn a_file_changed_by_others_is_taken_up() {
    let mut app = stored("un\ndeux");
    assert!(matches!(app.maybe_reload(WATCH_EVERY - 1), Effect::Nothing));
    assert!(matches!(app.maybe_reload(WATCH_EVERY), Effect::Watch));
    app.watched(Some(1), Some("ignored".to_owned()));
    assert_eq!(text_of(&app), "un\ndeux");
    app.watched(Some(2), Some("trois\nx".to_owned()));
    assert_eq!(text_of(&app), "trois\nx");
    assert_eq!(app.buf.cursor(), (1, 1));
    assert!(!app.dirty);
    app.watched(None, None);
    assert_eq!(text_of(&app), "");
}

#[test]
fn unsaved_keystrokes_are_not_overwritten() {
    let mut app = stored("un");
    app.on_key(key(KeyCode::Char('!')), 0);
    assert!(matches!(app.maybe_reload(WATCH_EVERY), Effect::Nothing));
    app.watched(Some(2), Some("autre".to_owned()));
    assert_eq!(text_of(&app), "un!");
}

#[test]
fn a_reload_of_the_same_text_leaves_the_cursor() {
    let mut app = stored("un");
    app.on_key(key(KeyCode::Home), 0);
    app.watched(Some(2), Some("un".to_owned()));
    assert_eq!(app.buf.cursor(), (0, 0));
}

#[test]
fn the_clocks_tick_at_their_own_pace() {
    let mut app = stored("");
    assert!(matches!(app.maybe_refresh_targets(TARGET_REFRESH - 1), Effect::Nothing));
    assert!(matches!(app.maybe_refresh_targets(TARGET_REFRESH), Effect::Refresh));
    assert!(matches!(app.maybe_refresh_targets(TARGET_REFRESH + 1), Effect::Nothing));
    assert!(matches!(app.heartbeat(HEARTBEAT_EVERY - 1), Effect::Nothing));
    assert!(
        matches!(app.heartbeat(HEARTBEAT_EVERY), Effect::Stamp { ref pane_id } if pane_id == "w1:p9")
    );
    let mut app = Bench::headless("");
    assert!(matches!(app.heartbeat(HEARTBEAT_EVERY), Effect::Nothing));
    assert!(matches!(app.maybe_reload(WATCH_EVERY), Effect::Nothing));
}

#[test]
fn a_message_is_shown_for_a_while() {
    let mut app = stored("");
    app.on_key(ctrl('z'), 100);
    let size = Rect { x: 0, y: 0, width: 80, height: 4 };
    let p = app.draw(size, 100 + STATUS_FOR - 1);
    assert!(matches!(p.bar, BarContent::Message(ref m) if m == "nothing to restore"));
    assert!(app.buttons.is_empty());
    assert!(p.hint);
    let p = app.draw(size, 100 + STATUS_FOR);
    assert!(matches!(p.bar, BarContent::Buttons(_)));
    assert_eq!(app.buttons.len(), 3);
    assert_eq!(app.body, Rect { x: 0, y: 0, width: 80, height: 3 });
    assert_eq!(app.total_rows, 1);
}

#[test]
fn a_drawn_button_can_be_clicked() {
    let mut app = stored("texte");
    app.draw(Rect { x: 0, y: 0, width: 80, height: 4 }, 0);
    let click = MouseEvent {
        kind: MouseEventKind::Down(MouseButton::Left),
        column: 9,
        row: 3,
        modifiers: NONE,
    };
    assert!(matches!(app.on_mouse(click, 0), Effect::Save { .. }));
    assert_eq!(text_of(&app), "");
}

#[test]
fn keys_move_and_erase() {
    let mut app = Bench::headless("ab\ncd\nef");
    app.on_key(key(KeyCode::Up));
    app.on_key(key(KeyCode::Home));
    app.on_key(key(KeyCode::Delete));
    assert_eq!(text_of(&app), "ab\nd\nef");
    app.on_key(key(KeyCode::End));
    app.on_key(key(KeyCode::Right));
    app.on_key(key(KeyCode::Left));
    app.on_key(key(KeyCode::Backspace));
    app.on_key(key(KeyCode::Enter));
    assert_eq!(text_of(&app), "ab\n\n\nef");
    app.on_key(key(KeyCode::PageUp));
    assert_eq!(app.buf.cursor(), (0, 0));
    app.on_key(key(KeyCode::PageDown));
    assert_eq!(app.buf.cursor(), (3, 0));
    app.body.height = 2;
    app.on_key(key(KeyCode::PageUp));
    assert_eq!(app.buf.cursor(), (1, 0));
    app.on_key(key(KeyCode::Down));
    app.on_key(ctrl_code(KeyCode::Right));
    assert_eq!(app.buf.cursor(), (3, 2));
    app.on_key(key(KeyCode::Other));
    assert_eq!(app.buf.cursor(), (3, 2));
}

#[test]
fn the_wheel_goes_both_ways() {
    let mut app = Bench::headless("");
    app.scroll = 4;
    app.total_rows = 9;
    app.body = Rect { x: 0, y: 0, width: 10, height: 2 };
    let wheel = |kind| MouseEvent { kind, column: 0, row: 0, modifiers: NONE };
    app.on_mouse(wheel(MouseEventKind::ScrollUp));
    assert_eq!(app.scroll, 1);
    app.on_mouse(wheel(MouseEventKind::ScrollUp));
    assert_eq!(app.scroll, 0);
    app.scroll = usize::MAX;
    app.on_mouse(wheel(MouseEventKind::ScrollDown));
    assert_eq!(app.scroll, 7);
    app.on_mouse(wheel(MouseEventKind::Other));
    app.on_mouse(wheel(MouseEventKind::Down(MouseButton::Right)));
    assert_eq!(app.scroll, 7);
}

#[test]
fn cycling_goes_all_the_way_round() {
    let mut app = Bench::headless("x");
    app.app.refresh_targets(Some(&agents_json(&[
        ("c", "c", TEST_TAB),
        ("a", "a", TEST_TAB),
        ("b", "b", TEST_TAB),
    ])));
    let mut seen = Vec::new();
    for _ in 0..4 {
        seen.push(app.current_target().unwrap().pane_id.clone());
        app.on_key(ctrl('n'));
    }
    assert_eq!(seen, vec!["a", "b", "c", "a"]);
}

#[test]
fn a_choice_follows_its_pane_through_the_list() {
    let mut app = stored("x");
    app.refresh_targets(Some(&agents_json(&[("b", "b", TEST_TAB)])));
    assert_eq!(app.target, Some(0));
    app.refresh_targets(Some(&agents_json(&[("b", "b", TEST_TAB), ("a", "a", TEST_TAB)])));
    assert_eq!(app.target, Some(1));
    assert_eq!(app.current_target().unwrap().pane_id, "b");
    app.refresh_targets(Some(&agents_json(&[("c", "c", TEST_TAB), ("a", "a", TEST_TAB)])));
    assert_eq!(app.current_target().unwrap().pane_id, "a");
    app.refresh_targets(None);
    assert_eq!(app.current_target().unwrap().pane_id, "a");
    app.refresh_targets(Some("unreadable"));
    assert!(app.current_target().is_none());
}

#[test]
fn a_list_is_adopted_from_a_tree() {
    let mut app = stored("x");
    let reply: Option<Json> = parse(&agents_json(&[("b", "b", TEST_TAB)]));
    app.adopt(reply.as_ref());
    assert_eq!(app.target, Some(0));
    app.adopt(None);
    assert_eq!(app.target, None);
}

/// Sizes agree, to the tenth, with the ones floating point gives.
#[test]
fn sizes_agree_with_floating_point() {
    let mut sizes: Vec<usize> = (0..300_000).step_by(7).collect();
    sizes.extend([1023, 1024, 1075, 1076, 1048575, 1048576, 1048577, 1101004, 1101005]);
    sizes.extend((0..64).map(|k| 1usize << k));
    sizes.extend((20..64).flat_map(|k| [(1usize << k) - 1, (1usize << k) + 1, 3 << (k - 2)]));
    sizes.extend([usize::MAX, usize::MAX - 1023, usize::MAX - 1024, (1 << 53) + 1, (1 << 54) + 2]);
    for bytes in sizes {
        let expected = if bytes >= 1 << 20 {
            format!("{:.1} MB", bytes as f64 / 1048576.0)
        } else if bytes >= 1 << 10 {
            format!("{:.1} KB", bytes as f64 / 1024.0)
        } else {
            format!("{bytes} B")
        };
        assert_eq!(human(bytes), expected, "{bytes}");
    }
}

#[test]
fn a_pane_reopens_on_what_was_saved() {
    let store = || Some(Store::at("/s/scratchpad.txt".to_owned()));
    let mut app = App::new(store(), None, None, None, None, 0);
    app.on_paste("une ligne\r\net une autre\n", 1);
    match app.flush(2) {
        Effect::Save { text, .. } => {
            let again = App::new(store(), Some(1), Some(text), None, None, 3);
            assert_eq!(again.buf.text(), "une ligne\net une autre\n");
            assert_eq!(again.buf.text(), app.buf.text());
            assert!(!again.dirty);
        }
        other => panic!("{other:?}"),
    }
}

#[test]
fn a_tabulation_is_typed_like_any_character() {
    let mut app = App::new(None, None, None, None, None, 0);
    let modifiers = KeyModifiers { shift: false, control: false, alt: false };
    app.on_key(KeyEvent { code: KeyCode::Char('\t'), modifiers, kind: KeyEventKind::Press }, 1);
    assert_eq!(app.buf.text(), "\t");
    assert_eq!(app.buf.cursor(), (0, 1));
}
