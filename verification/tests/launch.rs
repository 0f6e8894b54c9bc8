//! The decisions of the launcher.
use herdr_scratchpad::ipc::PANE_LABEL;
use herdr_scratchpad::json::Json;
use herdr_scratchpad::launch::{
    decide, focused_pane, is_flag_safe, is_scratchpad, launch_decision, open_plan, plan_split,
    report_focus, target_share, token_stale, HEARTBEAT_STALE_SECS,
};

fn list(panes: &str) -> String {
    format!(r#"{{"id":"x","result":{{"panes":[{panes}]}}}}"#)
}

fn pane(id: &str, tab: &str, focused: bool, token: Option<&str>) -> String {
    let tokens = match token {
        Some(ts) => format!(r#","tokens":{{"herdr-scratchpad":"{ts}"}}"#),
        None => String::new(),
    };
    format!(
        r#"{{"pane_id":"{id}","tab_id":"{tab}","cwd":"/tmp","focused":{focused}{tokens}}}"#
    )
}

#[test]
fn garbage_input_degrades_to_open() {
    assert_eq!(launch_decision("pas du json", 100), "OPEN");
    assert_eq!(launch_decision("", 100), "OPEN");
    assert_eq!(launch_decision(r#"{"result":{}}"#, 100), "OPEN");
}

#[test]
fn no_focused_pane_degrades_to_open() {
    let json = list(&pane("w1:p1", "w1:t1", false, Some("100")));
    assert_eq!(launch_decision(&json, 100), "OPEN");
}

#[test]
fn no_scratchpad_in_the_tab_opens() {
    let json = list(&pane("w1:p1", "w1:t1", true, None));
    assert_eq!(launch_decision(&json, 100), "OPEN");
}

#[test]
fn focused_scratchpad_closes() {
    let json = list(&pane("w1:p2", "w1:t1", true, Some("100")));
    assert_eq!(launch_decision(&json, 100), "CLOSE w1:p2");
}

#[test]
fn unfocused_scratchpad_in_same_tab_focuses() {
    let json = list(&format!(
        "{},{}",
        pane("w1:p1", "w1:t1", true, None),
        pane("w1:p2", "w1:t1", false, Some("100"))
    ));
    assert_eq!(launch_decision(&json, 100), "FOCUS w1:p2");
}

#[test]
fn scratchpad_in_another_tab_is_ignored() {
    let json = list(&format!(
        "{},{}",
        pane("w1:p1", "w1:t1", true, None),
        pane("w2:p9", "w2:t1", false, Some("100"))
    ));
    assert_eq!(launch_decision(&json, 100), "OPEN");
}

#[test]
fn stale_token_is_replaced() {
    let json = list(&format!(
        "{},{}",
        pane("w1:p1", "w1:t1", true, None),
        pane("w1:p2", "w1:t1", false, Some("10"))
    ));
    assert_eq!(
        launch_decision(&json, 10 + HEARTBEAT_STALE_SECS + 1),
        "REPLACE w1:p2"
    );
}

#[test]
fn token_exactly_at_the_threshold_is_still_alive() {
    let json = list(&format!(
        "{},{}",
        pane("w1:p1", "w1:t1", true, None),
        pane("w1:p2", "w1:t1", false, Some("10"))
    ));
    assert_eq!(
        launch_decision(&json, 10 + HEARTBEAT_STALE_SECS),
        "FOCUS w1:p2"
    );
}

#[test]
fn labelled_pane_without_token_is_a_corpse() {
    let json = list(&format!(
        r#"{},{{"pane_id":"w1:p2","tab_id":"w1:t1","focused":false,"label":"{PANE_LABEL}"}}"#,
        pane("w1:p1", "w1:t1", true, None)
    ));
    assert_eq!(launch_decision(&json, 100), "REPLACE w1:p2");
}

#[test]
fn focused_corpse_is_replaced_not_closed() {
    let json = list(&format!(
        r#"{{"pane_id":"w1:p2","tab_id":"w1:t1","focused":true,"label":"{PANE_LABEL}"}}"#
    ));
    assert_eq!(launch_decision(&json, 100), "REPLACE w1:p2");
}

#[test]
fn unsafe_pane_id_degrades_to_open() {
    let json = list(&format!(
        "{},{}",
        pane("w1:p1", "w1:t1", true, None),
        pane("--rm -rf", "w1:t1", false, Some("100"))
    ));
    assert_eq!(launch_decision(&json, 100), "OPEN");
}

#[test]
fn unparsable_token_counts_as_dead() {
    let json = list(
        r#"{"pane_id":"w1:p2","tab_id":"w1:t1","focused":false,"tokens":{"herdr-scratchpad":{}}},{"pane_id":"w1:p1","tab_id":"w1:t1","focused":true}"#,
    );
    assert_eq!(launch_decision(&json, 100), "REPLACE w1:p2");
}

#[test]
fn focused_pane_reports_id_and_cwd() {
    let json = list(&pane("w1:p1", "w1:t1", true, None));
    assert_eq!(focused_pane(&json), "w1:p1\t/tmp");
}

#[test]
fn focused_pane_is_empty_without_a_focused_one() {
    let json = list(&pane("w1:p1", "w1:t1", false, None));
    assert_eq!(focused_pane(&json), "");
}

fn layout(panes: &str) -> String {
    format!(r#"{{"result":{{"layout":{{"panes":[{panes}]}}}}}}"#)
}

fn lpane(id: &str, x: i64, y: i64, w: i64, h: i64) -> String {
    format!(
        r#"{{"pane_id":"{id}","rect":{{"x":{x},"y":{y},"width":{w},"height":{h}}}}}"#
    )
}

#[test]
fn open_plan_targets_the_bottom_most_pane() {
    let json = layout(&format!(
        "{},{}",
        lpane("top", 0, 0, 80, 20),
        lpane("bottom", 0, 20, 80, 20)
    ));
    assert!(open_plan(&json).starts_with("bottom\t"));
}

#[test]
fn open_plan_ratio_is_the_targets_share() {
    let json = layout(&lpane("only", 0, 0, 80, 40));
    assert_eq!(open_plan(&json), "only\t0.70");
}

#[test]
fn open_plan_clamps_share_on_a_tall_window() {
    let json = layout(&lpane("only", 0, 0, 80, 200));
    assert_eq!(open_plan(&json), "only\t0.85");
}

#[test]
fn open_plan_clamps_share_on_a_short_window() {
    let json = layout(&lpane("only", 0, 0, 80, 16));
    assert_eq!(open_plan(&json), "only\t0.50");
}

#[test]
fn open_plan_skips_zero_height_and_unsafe_panes() {
    let json = layout(&format!(
        "{},{}",
        lpane("good", 0, 0, 80, 40),
        lpane("--bad", 0, 40, 80, 40)
    ));
    assert!(open_plan(&json).starts_with("good\t"));

    let json = layout(&lpane("flat", 0, 0, 80, 0));
    assert_eq!(open_plan(&json), "");
}

#[test]
fn open_plan_of_garbage_is_empty() {
    assert_eq!(open_plan("nope"), "");
    assert_eq!(open_plan(r#"{"result":{}}"#), "");
}

#[test]
fn byte_order_marks_are_taken_off() {
    let json = format!("\u{feff}\u{feff}{}", list(&pane("w1:p2", "w1:t1", true, Some("100"))));
    assert_eq!(launch_decision(&json, 100), "CLOSE w1:p2");
    assert_eq!(focused_pane(&json), "w1:p2\t/tmp");
}

#[test]
fn a_stamp_may_be_a_number() {
    let json = list(
        r#"{"pane_id":"w1:p2","tab_id":"w1:t1","focused":true,"tokens":{"herdr-scratchpad":90}}"#,
    );
    assert_eq!(launch_decision(&json, 100), "CLOSE w1:p2");
    assert_eq!(launch_decision(&json, 111), "REPLACE w1:p2");
}

#[test]
fn a_stamp_from_the_future_is_alive() {
    let json = list(&pane("w1:p2", "w1:t1", true, Some("500")));
    assert_eq!(launch_decision(&json, 100), "CLOSE w1:p2");
}

#[test]
fn stamps_that_are_no_numbers_are_dead() {
    for ts in ["", "+", "-1", "1 ", "1.5", "18446744073709551616", "x"] {
        let json = list(&pane("w1:p2", "w1:t1", true, Some(ts)));
        assert_eq!(launch_decision(&json, 5), "REPLACE w1:p2", "{ts}");
    }
    let json = list(&pane("w1:p2", "w1:t1", true, Some("+5")));
    assert_eq!(launch_decision(&json, 5), "CLOSE w1:p2");
    let json = list(&pane("w1:p2", "w1:t1", true, Some("18446744073709551615")));
    assert_eq!(launch_decision(&json, 5), "CLOSE w1:p2");
}

#[test]
fn panes_without_a_tab_share_none() {
    let json = list(
        r#"{"pane_id":"p1","focused":true},{"pane_id":"p2","label":"Scratchpad","tokens":{"herdr-scratchpad":"9"}}"#,
    );
    assert_eq!(launch_decision(&json, 10), "FOCUS p2");
}

#[test]
fn a_focused_pane_without_a_directory_or_with_a_dubious_id() {
    assert_eq!(focused_pane(&list(r#"{"pane_id":"p1","focused":true}"#)), "p1\t");
    assert_eq!(focused_pane(&list(r#"{"pane_id":"p 1","focused":true,"cwd":"/"}"#)), "");
    assert_eq!(focused_pane(&list(r#"{"focused":true,"cwd":"/"}"#)), "");
    assert_eq!(focused_pane("nope"), "");
}

#[test]
fn safe_ids_hold_nothing_unusual() {
    for id in ["w1:p2", "a", "A.b_c-9", ":"] {
        assert!(is_flag_safe(id), "{id}");
    }
    for id in ["", "-a", "a b", "é", "a;b", "a/b", "a\n"] {
        assert!(!is_flag_safe(id), "{id}");
    }
}

#[test]
fn at_the_same_level_the_leftmost_pane_is_split() {
    let json = layout(&format!(
        "{},{},{}",
        lpane("right", 40, 0, 40, 40),
        lpane("left", 0, 20, 40, 20),
        lpane("again", 0, 10, 40, 30)
    ));
    assert_eq!(open_plan(&json), "left\t0.50");
}

#[test]
fn extreme_coordinates_do_not_overflow() {
    let json = layout(&format!(
        "{},{}",
        lpane("deep", i64::MIN, i64::MAX, 1, i64::MAX),
        lpane("shallow", i64::MAX, 0, 1, 30)
    ));
    assert_eq!(open_plan(&json), "deep\t0.85");
}

#[test]
fn panes_without_a_rectangle_are_skipped() {
    let json = layout(r#"{"pane_id":"a"},{"pane_id":"b","rect":7},{"pane_id":"c","rect":{"height":2.5}}"#);
    assert_eq!(open_plan(&json), "");
    let json = layout(r#"{"pane_id":"d","rect":{"height":30}}"#);
    assert_eq!(open_plan(&json), "d\t0.60");
}

/// The share agrees, to the hundredth, with the one floating point gives.
#[test]
fn the_share_of_every_height_is_that_of_twelve_rows() {
    for height in 1..=400i64 {
        let share = (12.0 / height as f64).clamp(0.15, 0.50);
        let expected = format!("only\t{:.2}", 1.0 - share);
        assert_eq!(open_plan(&layout(&lpane("only", 0, 0, 80, height))), expected, "{height}");
    }
    assert_eq!(target_share(32), 62);
    assert_eq!(target_share(24), 50);
    assert_eq!(target_share(80), 85);
}

#[test]
fn decisions_are_taken_on_a_tree() {
    let text = |s: &str| Json::Text(s.to_owned());
    let object = |entries: Vec<(&str, Json)>| {
        Json::Object(entries.into_iter().map(|(k, v)| (k.to_owned(), v)).collect())
    };
    let stamp = Json::Number { unsigned: Some(7), signed: Some(7) };
    let pane = object(vec![
        ("pane_id", text("p1")),
        ("focused", Json::Bool(true)),
        ("tokens", object(vec![("herdr-scratchpad", stamp)])),
    ]);
    assert!(is_scratchpad(&pane));
    assert!(!token_stale(&pane, 27));
    assert!(token_stale(&pane, 28));
    let reply = object(vec![("result", object(vec![("panes", Json::Array(vec![pane]))]))]);
    assert_eq!(decide(&reply, 27), "CLOSE p1");
    assert_eq!(decide(&reply, 28), "REPLACE p1");
    assert_eq!(report_focus(&reply), "p1\t");
    assert_eq!(plan_split(&reply), "");
    assert_eq!(decide(&Json::Null, 0), "OPEN");
}
