//! What is said to the server, what its answers mean, and JSON.
use herdr_scratchpad::ipc::{
    accepted, agent_list, focus_agent, input_params, judge, pane_params, request, send_input,
    stamp, stamp_params, tab_list,
};
use herdr_scratchpad::json::{parse, render, Json};
use herdr_scratchpad::text::{
    chars_of, comes_before, join_lines, normalise_breaks, read_number, same, split_lines,
    write_decimal,
};

#[test]
fn a_stamp_tells_the_time_as_a_string() {
    assert_eq!(
        stamp("w1:p1", 1700000000),
        "{\"id\":\"herdr-scratchpad:pane.report_metadata\",\"method\":\"pane.report_metadata\",\
         \"params\":{\"pane_id\":\"w1:p1\",\"source\":\"herdr-scratchpad\",\
         \"title\":\"Scratchpad\",\"tokens\":{\"herdr-scratchpad\":\"1700000000\"}}}\n"
    );
}

#[test]
fn a_text_is_handed_over_without_a_key_to_submit_it() {
    assert_eq!(
        send_input("w1:p1", "a \"b\"\n\té"),
        "{\"id\":\"herdr-scratchpad:pane.send_input\",\"method\":\"pane.send_input\",\
         \"params\":{\"keys\":[],\"pane_id\":\"w1:p1\",\"text\":\"a \\\"b\\\"\\n\\té\"}}\n"
    );
}

#[test]
fn lists_are_asked_for_without_parameters() {
    assert_eq!(
        agent_list(),
        "{\"id\":\"herdr-scratchpad:agent.list\",\"method\":\"agent.list\",\"params\":{}}\n"
    );
    assert_eq!(
        tab_list(),
        "{\"id\":\"herdr-scratchpad:tab.list\",\"method\":\"tab.list\",\"params\":{}}\n"
    );
}

#[test]
fn the_focus_names_a_pane() {
    assert_eq!(
        focus_agent("w1:p1"),
        "{\"id\":\"herdr-scratchpad:agent.focus\",\"method\":\"agent.focus\",\
         \"params\":{\"pane_id\":\"w1:p1\"}}\n"
    );
}

/// Whatever the text, a request is one line of JSON that carries it unchanged.
#[test]
fn a_request_is_one_line_that_carries_its_text() {
    for text in ["", "a\nb\r\nc", "\"\\/", "\u{0}\u{1f}\u{7f}", "日本 🦀", "\u{2028}"] {
        let line = send_input("p", text);
        assert_eq!(line.matches('\n').count(), 1);
        assert!(line.ends_with('\n'));
        let json = parse(&line).unwrap();
        let params = json.get("params").unwrap();
        assert_eq!(params.str_field("text"), Some(text));
        assert_eq!(params.array_field("keys").map(|k| k.len()), Some(0));
    }
}

#[test]
fn requests_are_built_as_trees() {
    let json = request("m", pane_params("p"));
    assert_eq!(json.str_field("id"), Some("herdr-scratchpad:m"));
    assert_eq!(json.str_field("method"), Some("m"));
    assert_eq!(json.get("params").unwrap().str_field("pane_id"), Some("p"));
    let params = input_params("p", "texte");
    assert_eq!(params.array_field("keys").map(|k| k.len()), Some(0));
    assert_eq!(params.str_field("text"), Some("texte"));
    let tokens = stamp_params("p", 12);
    assert_eq!(tokens.get("tokens").unwrap().str_field("herdr-scratchpad"), Some("12"));
}

#[test]
fn trees_are_written_on_one_line() {
    let text = |s: &str| Json::Text(s.to_owned());
    let tree = Json::Object(vec![
        ("a".to_owned(), Json::Array(vec![text("x\ny"), text("\"")])),
        ("b".to_owned(), Json::Object(vec![])),
    ]);
    assert_eq!(render(&tree), r#"{"a":["x\ny","\""],"b":{}}"#);
    assert_eq!(render(&text("é\t")), r#""é\t""#);
}

#[test]
fn answers_are_taken_for_what_they_say() {
    assert_eq!(accepted(Some(r#"{"id":"x","result":{}}"#)), Ok(()));
    assert_eq!(accepted(Some(r#"{"result":null}"#)), Ok(()));
    assert_eq!(
        accepted(Some(r#"{"error":{"code":"e","message":"pane_not_found"}}"#)),
        Err("pane_not_found".to_owned())
    );
    assert_eq!(accepted(Some(r#"{"error":{"code":"e"}}"#)), Err("refused".to_owned()));
    assert_eq!(accepted(Some(r#"{"id":"x"}"#)), Err("unreadable answer".to_owned()));
    assert_eq!(accepted(Some("nope")), Err("unreadable answer".to_owned()));
    assert_eq!(accepted(None), Err("no answer".to_owned()));
    assert_eq!(judge(&Json::Null), Err("unreadable answer".to_owned()));
}

#[test]
fn json_is_read_into_a_tree() {
    let json = parse(r#"{"b":[null,true,"é",-3,18446744073709551615,2.5],"a":{"c":7}}"#).unwrap();
    let items = json.array_field("b").unwrap();
    assert!(matches!(items[0], Json::Null));
    assert!(matches!(items[1], Json::Bool(true)));
    assert_eq!(items[2].as_str(), Some("é"));
    assert!(matches!(items[3], Json::Number { unsigned: None, signed: Some(-3) }));
    assert!(matches!(items[4], Json::Number { unsigned: Some(u64::MAX), signed: None }));
    assert!(matches!(items[5], Json::Number { unsigned: None, signed: None }));
    assert_eq!(items.len(), 6);
    let inner = json.get("a").unwrap();
    assert_eq!(inner.int_field("c"), Some(7));
    assert_eq!(inner.int_field("d"), None);
    assert!(inner.get("b").is_none());
    assert!(json.str_field("a").is_none());
    assert!(json.as_str().is_none() && json.as_array().is_none());
    assert!(!json.is_set("a"));
    assert!(parse(r#"{"t":true}"#).unwrap().is_set("t"));
    assert!(json.result_array("b").is_none());
}

#[test]
fn what_is_not_json_is_not_read() {
    for text in ["", "{", "nope", "{} {}", "\u{feff}{}", "[1,]"] {
        assert!(parse(text).is_none(), "{text}");
    }
}

#[test]
fn numbers_are_written_and_read_back() {
    for n in [0, 7, 10, 99, 100, 1234567890, u64::MAX] {
        assert_eq!(write_decimal(n), n.to_string());
        assert_eq!(read_number(&write_decimal(n)), Some(n));
    }
    for text in ["", "+", "-0", " 1", "1_0", "18446744073709551616", "99999999999999999999999"] {
        assert_eq!(read_number(text), text.parse::<u64>().ok(), "{text}");
    }
    assert_eq!(read_number("+007"), Some(7));
}

#[test]
fn texts_are_ordered_like_strings() {
    let texts = ["", "a", "ab", "b", "é", "z", "日", "🦀", "\u{ffff}"];
    for a in texts {
        for b in texts {
            assert_eq!(comes_before(a, b), a < b, "{a} {b}");
            assert_eq!(same(a, b), a == b, "{a} {b}");
        }
    }
}

#[test]
fn lines_are_split_and_joined() {
    for text in ["", "\n", "a\n\nb", "é\n"] {
        let lines = split_lines(text);
        assert_eq!(lines, text.split('\n').collect::<Vec<_>>());
        assert_eq!(join_lines(&lines), text);
        assert_eq!(chars_of(text), text.chars().collect::<Vec<_>>());
    }
    assert_eq!(normalise_breaks("a\r\nb\rc\n\r\n"), "a\nb\nc\n\n");
}
