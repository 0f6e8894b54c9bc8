//! The agents that can be reached.
use herdr_scratchpad::agents::{
    label, label_measured, live_tab_ids, live_tabs_read, next, targets, targets_read, truncate,
    Target, UNNAMED,
};
use herdr_scratchpad::json::Json;
use herdr_scratchpad::width::columns;

fn agents(entries: &[(&str, &str, &str)]) -> String {
    let list: Vec<String> = entries
        .iter()
        .map(|(pane_id, agent, tab_id)| {
            let workspace = tab_id.split(':').next().unwrap_or("");
            format!(
                r#"{{"pane_id":"{pane_id}","agent":"{agent}","tab_id":"{tab_id}","workspace_id":"{workspace}","focused":false}}"#
            )
        })
        .collect();
    format!(r#"{{"id":"x","result":{{"type":"agent_list","agents":[{}]}}}}"#, list.join(","))
}

fn tabs(ids: &[&str]) -> String {
    let list: Vec<String> = ids
        .iter()
        .map(|id| format!(r#"{{"tab_id":"{id}","workspace_id":"w1","number":1}}"#))
        .collect();
    format!(r#"{{"id":"x","result":{{"type":"tab_list","tabs":[{}]}}}}"#, list.join(","))
}

fn target(agent: &str, pane_id: &str) -> Target {
    Target { pane_id: pane_id.into(), agent: agent.into() }
}

#[test]
fn an_empty_list_yields_no_target() {
    assert!(targets(&agents(&[]), Some("w1:t1"), None).is_empty());
}

#[test]
fn an_agent_in_my_tab_is_a_target() {
    let found = targets(&agents(&[("w2:p1", "hermes", "w2:t1")]), Some("w2:t1"), None);
    assert_eq!(found, vec![target("hermes", "w2:p1")]);
}

#[test]
fn an_agent_from_another_tab_is_not_a_target() {
    let found = targets(&agents(&[("w2:p1", "hermes", "w2:t9")]), Some("w2:t1"), None);
    assert!(found.is_empty());
}

#[test]
fn two_agents_in_my_tab_are_two_targets_ordered_by_pane_id() {
    let found = targets(
        &agents(&[("w1:p2", "codex", "w1:t1"), ("w1:p1", "hermes", "w1:t1")]),
        Some("w1:t1"),
        None,
    );
    assert_eq!(
        found,
        vec![target("hermes", "w1:p1"), target("codex", "w1:p2")]
    );
}

#[test]
fn an_unknown_tab_yields_no_target() {
    let found = targets(&agents(&[("w1:p1", "hermes", "w1:t1")]), Some("w9:t9"), None);
    assert!(found.is_empty());
}

#[test]
fn without_a_tab_id_there_is_no_target() {
    let found = targets(&agents(&[("w1:p1", "hermes", "w1:t1")]), None, None);
    assert!(found.is_empty());
    assert!(targets(&agents(&[("w1:p1", "hermes", "w1:t1")]), Some(""), None).is_empty());
}

#[test]
fn the_current_pane_stays_excluded_even_in_the_right_tab() {
    let found = targets(
        &agents(&[("w1:p1", "hermes", "w1:t1"), ("w1:p2", "hermes", "w1:t1")]),
        Some("w1:t1"),
        Some("w1:p1"),
    );
    assert_eq!(found, vec![target("hermes", "w1:p2")]);
}

#[test]
fn a_nameless_agent_gets_a_fallback_name() {
    let json = r#"{"result":{"agents":[{"pane_id":"w1:p1","tab_id":"w1:t1"}]}}"#;
    let found = targets(json, Some("w1:t1"), None);
    assert_eq!(found[0].agent, UNNAMED);
}

#[test]
fn order_is_stable_whatever_the_response_order() {
    let a = targets(
        &agents(&[("w1:p2", "codex", "w1:t1"), ("w1:p1", "hermes", "w1:t1")]),
        Some("w1:t1"),
        None,
    );
    let b = targets(
        &agents(&[("w1:p1", "hermes", "w1:t1"), ("w1:p2", "codex", "w1:t1")]),
        Some("w1:t1"),
        None,
    );
    assert_eq!(a, b);
    assert_eq!(a[0].pane_id, "w1:p1");
}

#[test]
fn unreadable_json_does_not_panic_and_yields_an_empty_list() {
    assert!(targets("pas du json", Some("w1:t1"), None).is_empty());
    assert!(targets(r#"{"result":{}}"#, Some("w1:t1"), None).is_empty());
}

#[test]
fn live_tab_ids_returns_the_ids_of_a_well_formed_tab_list() {
    assert_eq!(
        live_tab_ids(&tabs(&["w1:t1", "w2:t3"])),
        vec!["w1:t1".to_owned(), "w2:t3".to_owned()]
    );
}

#[test]
fn live_tab_ids_returns_an_empty_list_on_unreadable_json() {
    assert!(live_tab_ids("pas du json").is_empty());
    assert!(live_tab_ids(r#"{"result":{}}"#).is_empty());
    assert!(live_tab_ids(r#"{"error":{"code":"nope"}}"#).is_empty());
}

#[test]
fn next_wraps_around_to_the_first() {
    let list = [target("a", "w1:p1"), target("b", "w1:p2")];
    assert_eq!(next(&list, Some(0)), Some(1));
    assert_eq!(next(&list, Some(1)), Some(0));
}

#[test]
fn next_on_an_empty_list_yields_nothing() {
    assert_eq!(next(&[], Some(0)), None);
    assert_eq!(next(&[], None), None);
}

#[test]
fn next_without_a_current_target_takes_the_first() {
    let list = [target("a", "w1:p1")];
    assert_eq!(next(&list, None), Some(0));
}

#[test]
fn label_shows_the_agent_and_its_pane_suffix() {
    assert_eq!(label(&target("hermes", "w2:p3"), 40), "→ hermes·p3");
}

#[test]
fn two_agents_with_the_same_name_get_distinct_labels() {
    assert_ne!(
        label(&target("hermes", "w3:p1"), 40),
        label(&target("hermes", "w3:p2"), 40)
    );
}

#[test]
fn label_trims_the_suffix_before_the_agent_name() {
    assert_eq!(label(&target("hermes", "w2:p3"), 9), "→ hermes");
}

#[test]
fn label_never_overflows_the_width() {
    let t = target("hermes", "w2:p3");
    for width in 0..20 {
        assert!(columns(&label(&t, width)) <= width, "width {width}");
    }
}

#[test]
fn a_pane_id_without_a_colon_is_its_own_suffix() {
    assert_eq!(label(&target("hermes", "p9"), 40), "→ hermes·p9");
}

fn text(s: &str) -> Json {
    Json::Text(s.to_owned())
}

fn object(entries: Vec<(&str, Json)>) -> Json {
    Json::Object(entries.into_iter().map(|(k, v)| (k.to_owned(), v)).collect())
}

fn agent(pane_id: &str, tab_id: &str) -> Json {
    object(vec![("pane_id", text(pane_id)), ("tab_id", text(tab_id)), ("name", text(pane_id))])
}

#[test]
fn targets_are_read_from_a_tree() {
    let list = Json::Array(vec![
        agent("w1:p10", "w1:t1"),
        Json::Null,
        agent("w1:p2", "w1:t1"),
        agent("w1:p1", "w1:t2"),
        object(vec![("tab_id", text("w1:t1"))]),
        object(vec![("tab_id", text("w1:t1")), ("pane_id", text(""))]),
    ]);
    let reply = object(vec![("result", object(vec![("agents", list)]))]);
    assert_eq!(
        targets_read(&reply, Some("w1:t1"), None),
        vec![target("w1:p10", "w1:p10"), target("w1:p2", "w1:p2")]
    );
    assert_eq!(
        targets_read(&reply, Some("w1:t1"), Some("w1:p10")),
        vec![target("w1:p2", "w1:p2")]
    );
    assert!(targets_read(&Json::Null, Some("w1:t1"), None).is_empty());
}

#[test]
fn the_agent_names_come_in_order_of_preference() {
    let json = r#"{"result":{"agents":[
        {"pane_id":"1","tab_id":"t","agent":"a","display_agent":"b","name":"c"},
        {"pane_id":"2","tab_id":"t","agent":"","display_agent":"b","name":"c"},
        {"pane_id":"3","tab_id":"t","agent":7,"name":"c"}
    ]}}"#;
    let names: Vec<String> = targets(json, Some("t"), None).into_iter().map(|t| t.agent).collect();
    assert_eq!(names, vec!["a", "b", "c"]);
}

#[test]
fn agents_with_one_pane_id_keep_their_order() {
    let json = r#"{"result":{"agents":[
        {"pane_id":"p","tab_id":"t","agent":"first"},
        {"pane_id":"a","tab_id":"t","agent":"other"},
        {"pane_id":"p","tab_id":"t","agent":"second"}
    ]}}"#;
    let names: Vec<String> = targets(json, Some("t"), None).into_iter().map(|t| t.agent).collect();
    assert_eq!(names, vec!["other", "first", "second"]);
}

#[test]
fn pane_ids_are_ordered_like_strings() {
    let ids = ["é", "z", "Z", "p10", "p2", "p", "日", "🦀"];
    let entries: Vec<(&str, &str, &str)> = ids.iter().map(|id| (*id, "a", "t")).collect();
    let found: Vec<String> =
        targets(&agents(&entries), Some("t"), None).into_iter().map(|t| t.pane_id).collect();
    let mut sorted: Vec<String> = ids.iter().map(|id| id.to_string()).collect();
    sorted.sort();
    assert_eq!(found, sorted);
}

#[test]
fn live_tabs_are_read_from_a_tree() {
    let list = Json::Array(vec![
        object(vec![("tab_id", text("w1:t1"))]),
        object(vec![("tab_id", text(""))]),
        Json::Bool(true),
    ]);
    let reply = object(vec![("result", object(vec![("tabs", list)]))]);
    assert_eq!(live_tabs_read(&reply), vec!["w1:t1".to_owned()]);
}

#[test]
fn a_stale_index_falls_back_to_the_first() {
    let list = [target("a", "w1:p1"), target("b", "w1:p2")];
    assert_eq!(next(&list, Some(7)), Some(0));
    assert_eq!(next(&list, Some(usize::MAX)), Some(0));
}

#[test]
fn the_suffix_follows_the_last_colon() {
    assert_eq!(label(&target("a", "x:y:z"), 40), "→ a·z");
    assert_eq!(label(&target("a", "x:"), 40), "→ a·");
}

#[test]
fn a_label_counts_columns_not_characters() {
    assert_eq!(label(&target("日本", "w:p"), 8), "→ 日本·p");
    assert_eq!(label(&target("日本", "w:p"), 7), "→ 日本");
    assert_eq!(label(&target("日本", "w:p"), 5), "→ 日");
}

#[test]
fn a_measured_label_goes_by_the_widths_it_is_given() {
    let t = target("ab", "p");
    assert_eq!(label_measured(&t, &[1; 6], &[1; 4], 6), "→ ab·p");
    assert_eq!(label_measured(&t, &[2; 6], &[2; 4], 7), "→ a");
    assert_eq!(truncate("abc", &[1, 5, 1], 5), "a");
    assert_eq!(truncate("abc", &[0, 0, 9], 0), "ab");
}
