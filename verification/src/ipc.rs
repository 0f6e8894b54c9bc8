//! What is said to the server, and what its answers mean.
//!
//! The protocol is JSON, one line per message and one request per connection.
//! Without a server the pane stays perfectly usable: nothing here is needed for
//! that.
use crate::json;
use crate::json::{Json, JsonView};
use crate::launch;
use crate::text;
use vstd::prelude::*;

verus! {

/// The name the server knows this plugin by, and the key of its token.
pub const METADATA_SOURCE: &'static str = "herdr-scratchpad";

/// The label of the pane, by which it is still known once its token is gone.
pub const PANE_LABEL: &'static str = "Scratchpad";

/// A request: its id, its method and its parameters.
pub open spec fn request_tree(method: Seq<char>, params: JsonView) -> JsonView {
    JsonView::Object(
        seq![
            ("id"@, JsonView::Text(METADATA_SOURCE@ + ":"@ + method)),
            ("method"@, JsonView::Text(method)),
            ("params"@, params),
        ],
    )
}

/// No parameters.
pub open spec fn empty_tree() -> JsonView {
    JsonView::Object(Seq::empty())
}

/// The parameters of a stamp. The value of the token is a string: the server
/// rejects numbers.
pub open spec fn stamp_tree(pane_id: Seq<char>, now: nat) -> JsonView {
    JsonView::Object(
        seq![
            ("pane_id"@, JsonView::Text(pane_id)),
            ("source"@, JsonView::Text(METADATA_SOURCE@)),
            ("title"@, JsonView::Text(PANE_LABEL@)),
            (
                "tokens"@,
                JsonView::Object(
                    seq![(METADATA_SOURCE@, JsonView::Text(text::decimal(now)))],
                ),
            ),
        ],
    )
}

/// The parameters that hand a text to a pane, with no key to submit it.
pub open spec fn input_tree(pane_id: Seq<char>, text: Seq<char>) -> JsonView {
    JsonView::Object(
        seq![
            ("keys"@, JsonView::Array(Seq::empty())),
            ("pane_id"@, JsonView::Text(pane_id)),
            ("text"@, JsonView::Text(text)),
        ],
    )
}

/// The parameters that name a pane.
pub open spec fn pane_tree(pane_id: Seq<char>) -> JsonView {
    JsonView::Object(seq![("pane_id"@, JsonView::Text(pane_id))])
}

/// A text without a line break.
pub open spec fn unbroken(s: Seq<char>) -> bool {
    !s.contains('\n')
}

/// Whether a line is the message that carries a request: one line, with no line
/// break but the one at its end, and the request is what is read out of it.
pub open spec fn carries(line: Seq<char>, request: JsonView) -> bool {
    &&& line.len() > 0
    &&& line.last() == '\n'
    &&& unbroken(line.drop_last())
    &&& line.drop_last() == json::written(request)
    &&& json::parsed(line.drop_last()) == Some(request)
}

/// A text is handed to a pane as it is, and no key with it: nothing is ever
/// submitted on behalf of the user.
pub proof fn input_is_never_submitted(pane_id: Seq<char>, text: Seq<char>)
    ensures
        input_tree(pane_id, text).list("keys"@) == Some(Seq::<JsonView>::empty()),
        input_tree(pane_id, text).field("pane_id"@) == Some(pane_id),
        input_tree(pane_id, text).field("text"@) == Some(text),
{
    reveal_with_fuel(json::entry_from, 4);
    reveal_strlit("keys");
    reveal_strlit("pane_id");
    reveal_strlit("text");
    assert("keys"@[0] != "pane_id"@[0]);
    assert("keys"@[0] != "text"@[0]);
    assert("pane_id"@[0] != "text"@[0]);
}

/// A stamp is what the launcher takes for a sign of life: the token of a pane
/// stamped at `now` is not stale before its time is over.
pub proof fn stamp_is_a_sign_of_life(pane_id: Seq<char>, now: nat, later: int)
    requires
        now <= u64::MAX,
    ensures
        launch::token_of(stamp_tree(pane_id, now)) == Some(JsonView::Text(text::decimal(now))),
        launch::stale(stamp_tree(pane_id, now), later) == (later - now
            > launch::HEARTBEAT_STALE_SECS),
{
    reveal_with_fuel(json::entry_from, 5);
    reveal_strlit("pane_id");
    reveal_strlit("source");
    reveal_strlit("title");
    reveal_strlit("tokens");
    assert("pane_id"@[0] != "tokens"@[0]);
    assert("source"@[0] != "tokens"@[0]);
    assert("title"@[1] != "tokens"@[1]);
    text::number_survives_decimal(now);
}

fn text_json(s: &str) -> (json: Json)
    ensures
        json@ == JsonView::Text(s@),
{
    Json::Text(s.to_owned())
}

/// The entries of an object as plain data.
pub open spec fn entry_views(entries: Seq<(String, Json)>) -> Seq<(Seq<char>, JsonView)> {
    entries.map_values(|e: (String, Json)| (e.0@, e.1@))
}

fn object_json(entries: Vec<(String, Json)>) -> (json: Json)
    ensures
        json@ == JsonView::Object(entry_views(entries@)),
{
    let json = Json::Object(entries);
    assert(json@->Object_0 =~= entry_views(entries@));
    json
}

/// A request with its id, method and parameters.
pub fn request(method: &str, params: Json) -> (json: Json)
    ensures
        json@ == request_tree(method@, params@),
{
    let mut id: String = METADATA_SOURCE.to_owned();
    id.append(":");
    id.append(method);
    let mut entries: Vec<(String, Json)> = Vec::new();
    entries.push(("id".to_owned(), Json::Text(id)));
    entries.push(("method".to_owned(), text_json(method)));
    entries.push(("params".to_owned(), params));
    assert(entry_views(entries@) =~= request_tree(method@, params@)->Object_0);
    object_json(entries)
}

fn no_params() -> (json: Json)
    ensures
        json@ == empty_tree(),
{
    let entries: Vec<(String, Json)> = Vec::new();
    assert(entry_views(entries@) =~= Seq::<(Seq<char>, JsonView)>::empty());
    object_json(entries)
}

/// The parameters of a stamp.
pub fn stamp_params(pane_id: &str, now: u64) -> (json: Json)
    ensures
        json@ == stamp_tree(pane_id@, now as nat),
{
    let mut tokens: Vec<(String, Json)> = Vec::new();
    tokens.push((METADATA_SOURCE.to_owned(), Json::Text(text::write_decimal(now))));
    assert(entry_views(tokens@) =~= seq![
        (METADATA_SOURCE@, JsonView::Text(text::decimal(now as nat))),
    ]);
    let mut entries: Vec<(String, Json)> = Vec::new();
    entries.push(("pane_id".to_owned(), text_json(pane_id)));
    entries.push(("source".to_owned(), text_json(METADATA_SOURCE)));
    entries.push(("title".to_owned(), text_json(PANE_LABEL)));
    entries.push(("tokens".to_owned(), object_json(tokens)));
    assert(entry_views(entries@) =~= stamp_tree(pane_id@, now as nat)->Object_0);
    object_json(entries)
}

/// The parameters that hand a text to a pane without submitting it.
pub fn input_params(pane_id: &str, text: &str) -> (json: Json)
    ensures
        json@ == input_tree(pane_id@, text@),
{
    let keys = Json::Array(Vec::new());
    assert(keys@->Array_0 =~= Seq::<JsonView>::empty());
    let mut entries: Vec<(String, Json)> = Vec::new();
    entries.push(("keys".to_owned(), keys));
    entries.push(("pane_id".to_owned(), text_json(pane_id)));
    entries.push(("text".to_owned(), text_json(text)));
    assert(entry_views(entries@) =~= input_tree(pane_id@, text@)->Object_0);
    object_json(entries)
}

/// The parameters that name a pane.
pub fn pane_params(pane_id: &str) -> (json: Json)
    ensures
        json@ == pane_tree(pane_id@),
{
    let mut entries: Vec<(String, Json)> = Vec::new();
    entries.push(("pane_id".to_owned(), text_json(pane_id)));
    assert(entry_views(entries@) =~= pane_tree(pane_id@)->Object_0);
    object_json(entries)
}

/// A request is written as it is read: its keys come in order.
proof fn lemma_request_writable(method: Seq<char>, params: JsonView)
    requires
        json::writable(params),
        json::nested_within(params, 9),
    ensures
        json::writable(request_tree(method, params)),
        json::nested_within(request_tree(method, params), 100),
{
    let tree = request_tree(method, params);
    let entries = tree->Object_0;
    reveal_strlit("id");
    reveal_strlit("method");
    reveal_strlit("params");
    assert forall|i: int| 0 <= i < entries.len() - 1 implies text::precedes(
        (#[trigger] entries[i]).0,
        entries[i + 1].0,
    ) by {
        if i == 0 {
            assert("id"@[0] < "method"@[0]);
        } else {
            assert("method"@[0] < "params"@[0]);
        }
    }
    assert forall|i: int| 0 <= i < entries.len() implies json::writable(
        (#[trigger] entries[i]).1,
    ) by {
        if i == 2 {
            assert(entries[i].1 == params);
        }
    }
    assert forall|i: int| 0 <= i < entries.len() implies json::nested_within(
        (#[trigger] entries[i]).1,
        99,
    ) by {
        lemma_nested_more(params, 9, 99);
    }
}

/// A value of few levels has at most as many as more would allow.
proof fn lemma_nested_more(v: JsonView, n: nat, m: nat)
    requires
        json::nested_within(v, n),
        n <= m,
    ensures
        json::nested_within(v, m),
    decreases n,
{
    match v {
        JsonView::Array(items) => {
            assert forall|i: int| 0 <= i < items.len() implies json::nested_within(
                #[trigger] items[i],
                (m - 1) as nat,
            ) by {
                assert(json::nested_within(items[i], (n - 1) as nat));
                lemma_nested_more(items[i], (n - 1) as nat, (m - 1) as nat);
            }
        },
        JsonView::Object(entries) => {
            assert forall|i: int| 0 <= i < entries.len() implies json::nested_within(
                (#[trigger] entries[i]).1,
                (m - 1) as nat,
            ) by {
                assert(json::nested_within(entries[i].1, (n - 1) as nat));
                lemma_nested_more(entries[i].1, (n - 1) as nat, (m - 1) as nat);
            }
        },
        _ => {},
    }
}

/// A message to the server, given its method and parameters.
fn call(method: &str, params: Json) -> (line: String)
    requires
        json::writable(params@),
        json::nested_within(params@, 9),
    ensures
        carries(line@, request_tree(method@, params@)),
{
    proof {
        lemma_request_writable(method@, params@);
    }
    let mut line = json::render(&request(method, params));
    let ghost before = line@;
    line.push('\n');
    assert(line@.drop_last() =~= before);
    line
}

/// The request that stamps a pane: it is alive at `now`, in seconds since the
/// epoch.
pub fn stamp(pane_id: &str, now: u64) -> (line: String)
    ensures
        carries(
            line@,
            request_tree("pane.report_metadata"@, stamp_tree(pane_id@, now as nat)),
        ),
{
    let params = stamp_params(pane_id, now);
    proof {
        let entries = params@->Object_0;
        reveal_with_fuel(text::precedes_from, 2);
        reveal_with_fuel(json::nested_within, 3);
        reveal_with_fuel(json::writable, 3);
        reveal_strlit("pane_id");
        reveal_strlit("source");
        reveal_strlit("title");
        reveal_strlit("tokens");
        assert forall|i: int| 0 <= i < entries.len() - 1 implies text::precedes(
            (#[trigger] entries[i]).0,
            entries[i + 1].0,
        ) by {
            if i == 0 {
                assert("pane_id"@[0] < "source"@[0]);
            } else if i == 1 {
                assert("source"@[0] < "title"@[0]);
            } else {
                assert("title"@[0] == "tokens"@[0]);
                assert("title"@[1] < "tokens"@[1]);
            }
        }
    }
    call("pane.report_metadata", params)
}

/// The request for the agents of all tabs.
pub fn agent_list() -> (line: String)
    ensures
        carries(line@, request_tree("agent.list"@, empty_tree())),
{
    call("agent.list", no_params())
}

/// The request for the tabs of all workspaces.
pub fn tab_list() -> (line: String)
    ensures
        carries(line@, request_tree("tab.list"@, empty_tree())),
{
    call("tab.list", no_params())
}

/// The request that hands a text to a pane without submitting it.
pub fn send_input(pane_id: &str, text: &str) -> (line: String)
    ensures
        carries(line@, request_tree("pane.send_input"@, input_tree(pane_id@, text@))),
{
    let params = input_params(pane_id, text);
    proof {
        let entries = params@->Object_0;
        reveal_with_fuel(json::nested_within, 3);
        reveal_with_fuel(json::writable, 3);
        reveal_strlit("keys");
        reveal_strlit("pane_id");
        reveal_strlit("text");
        assert forall|i: int| 0 <= i < entries.len() - 1 implies text::precedes(
            (#[trigger] entries[i]).0,
            entries[i + 1].0,
        ) by {
            if i == 0 {
                assert("keys"@[0] < "pane_id"@[0]);
            } else {
                assert("pane_id"@[0] < "text"@[0]);
            }
        }
    }
    call("pane.send_input", params)
}

/// The request that gives an agent the focus.
pub fn focus_agent(pane_id: &str) -> (line: String)
    ensures
        carries(line@, request_tree("agent.focus"@, pane_tree(pane_id@))),
{
    let params = pane_params(pane_id);
    proof {
        reveal_with_fuel(json::nested_within, 2);
        reveal_with_fuel(json::writable, 2);
    }
    call("agent.focus", params)
}

/// What an answer says of a request: accepted, or refused and why. No answer and
/// one that cannot be read are refusals too: only an accepted text may be
/// cleared.
pub open spec fn verdict(reply: Option<Option<JsonView>>) -> Result<(), Seq<char>> {
    match reply {
        None => Err("no answer"@),
        Some(None) => Err("unreadable answer"@),
        Some(Some(json)) => match json.member("error"@) {
            Some(error) => Err(
                match error.field("message"@) {
                    Some(message) => message,
                    None => "refused"@,
                },
            ),
            None => if json.member("result"@) is Some {
                Ok(())
            } else {
                Err("unreadable answer"@)
            },
        },
    }
}

/// A result as plain text.
pub open spec fn result_view(result: Result<(), String>) -> Result<(), Seq<char>> {
    match result {
        Ok(()) => Ok(()),
        Err(e) => Err(e@),
    }
}

/// What an answer that has been read says of a request.
pub fn judge(reply: &Json) -> (result: Result<(), String>)
    ensures
        result_view(result) == verdict(Some(Some(reply@))),
{
    if let Some(error) = reply.get("error") {
        return match error.str_field("message") {
            Some(message) => Err(message.to_owned()),
            None => Err("refused".to_owned()),
        };
    }
    if reply.get("result").is_some() {
        Ok(())
    } else {
        Err("unreadable answer".to_owned())
    }
}

/// An answer as what is read out of it.
pub open spec fn reply_view(reply: Option<&str>) -> Option<Option<JsonView>> {
    match reply {
        Some(line) => Some(json::parsed(line@)),
        None => None,
    }
}

/// What an answer says of a request.
pub fn accepted(reply: Option<&str>) -> (result: Result<(), String>)
    ensures
        result_view(result) == verdict(reply_view(reply)),
{
    match reply {
        Some(line) => match json::parse(line) {
            Some(json) => judge(&json),
            None => Err("unreadable answer".to_owned()),
        },
        None => Err("no answer".to_owned()),
    }
}

/// A request names its method and carries its parameters; its id tells the plugin
/// and the method.
pub proof fn requests_name_their_method(method: Seq<char>, params: JsonView)
    ensures
        ({
            let tree = request_tree(method, params);
            &&& tree.field("method"@) == Some(method)
            &&& tree.member("params"@) == Some(params)
            &&& tree.field("id"@) == Some("herdr-scratchpad"@ + ":"@ + method)
        }),
{
    reveal_with_fuel(json::entry_from, 4);
    reveal_strlit("id");
    reveal_strlit("method");
    reveal_strlit("params");
    assert("id"@[0] != "method"@[0]);
    assert("id"@[0] != "params"@[0]);
    assert("method"@[0] != "params"@[0]);
}

/// A stamp tells which pane it is for, who says so, and the title of the pane.
pub proof fn stamps_name_their_pane(pane_id: Seq<char>, now: nat)
    ensures
        stamp_tree(pane_id, now).field("pane_id"@) == Some(pane_id),
        stamp_tree(pane_id, now).field("source"@) == Some("herdr-scratchpad"@),
        stamp_tree(pane_id, now).field("title"@) == Some("Scratchpad"@),
        pane_tree(pane_id).field("pane_id"@) == Some(pane_id),
{
    reveal_with_fuel(json::entry_from, 5);
    reveal_strlit("pane_id");
    reveal_strlit("source");
    reveal_strlit("title");
    assert("pane_id"@[0] != "source"@[0]);
    assert("pane_id"@[0] != "title"@[0]);
    assert("source"@[0] != "title"@[0]);
}

/// A request is accepted only by an answer that can be read, holds a result and
/// no error; an error is told in the server's own words where it has some.
pub proof fn only_a_result_without_error_accepts(reply: Option<Option<JsonView>>)
    ensures
        verdict(reply) is Ok <==> (reply matches Some(Some(json)) && json.member("error"@) is None
            && json.member("result"@) is Some),
        reply matches Some(Some(json)) ==> (json.member("error"@) matches Some(error) ==> (
        error.field("message"@) matches Some(message) ==> verdict(reply) == Err::<(), Seq<char>>(
            message,
        ))),
{
}

} // verus!
