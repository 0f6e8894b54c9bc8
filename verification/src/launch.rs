//! The decisions of the launcher.
//!
//! The launch script only runs commands; what to run is decided here, from the
//! answers of the server. The toggle is scoped to the tab: one scratchpad per
//! tab, and a scratchpad elsewhere does not count.
use crate::ipc::{METADATA_SOURCE, PANE_LABEL};
use crate::json;
use crate::json::{Json, JsonView};
use crate::text;
use vstd::prelude::*;

verus! {

/// A pane without a stamp for longer than this counts as dead. It is stamped
/// anew every five seconds.
pub const HEARTBEAT_STALE_SECS: u64 = 20;

/// A text without the byte order marks it begins with.
pub open spec fn after_marks(s: Seq<char>) -> Seq<char>
    decreases s.len(),
{
    if s.len() > 0 && s[0] == '\u{feff}' {
        after_marks(s.skip(1))
    } else {
        s
    }
}

/// A character that is harmless in the argument of a command.
pub open spec fn safe_char(c: char) -> bool {
    ||| 'a' <= c <= 'z'
    ||| 'A' <= c <= 'Z'
    ||| '0' <= c <= '9'
    ||| c == ':' || c == '.' || c == '_' || c == '-'
}

/// An id that can stand as the argument of a command: not empty, not a flag, and
/// of harmless characters alone.
pub open spec fn flag_safe(id: Seq<char>) -> bool {
    &&& id.len() > 0
    &&& id[0] != '-'
    &&& forall|i: int| 0 <= i < id.len() ==> safe_char(#[trigger] id[i])
}

/// The id of a pane, where it can stand as the argument of a command.
pub open spec fn safe_id(pane: JsonView) -> Option<Seq<char>> {
    match pane.field("pane_id"@) {
        Some(id) => if flag_safe(id) {
            Some(id)
        } else {
            None
        },
        None => None,
    }
}

/// The stamp of a pane, whatever it holds.
pub open spec fn token_of(pane: JsonView) -> Option<JsonView> {
    match pane.member("tokens"@) {
        Some(tokens) => tokens.member(METADATA_SOURCE@),
        None => None,
    }
}

/// A pane is a scratchpad if it carries our token or, failing that, our label.
///
/// The label without the token is what a restart leaves behind: it is known all
/// the same, to be replaced rather than doubled.
pub open spec fn scratchpad(pane: JsonView) -> bool {
    token_of(pane) is Some || pane.field("label"@) == Some(PANE_LABEL@)
}

/// The time a stamp tells, as a number or as a text that spells one.
pub open spec fn stamp_time(token: JsonView) -> Option<int> {
    match token {
        JsonView::Number { unsigned: Some(n), .. } => Some(n as int),
        JsonView::Text(s) => text::number_of(s),
        _ => None,
    }
}

/// Whether the stamp of a pane is missing, unreadable or too old.
pub open spec fn stale(pane: JsonView, now: int) -> bool {
    match token_of(pane) {
        Some(token) => match stamp_time(token) {
            Some(time) => now - time > HEARTBEAT_STALE_SECS,
            None => true,
        },
        None => true,
    }
}

/// The first pane, from the `i`-th on, that satisfies a condition.
pub open spec fn first_from(
    panes: Seq<JsonView>,
    condition: spec_fn(JsonView) -> bool,
    i: int,
) -> Option<JsonView>
    decreases panes.len() - i,
{
    if i < 0 || i >= panes.len() {
        None
    } else if condition(panes[i]) {
        Some(panes[i])
    } else {
        first_from(panes, condition, i + 1)
    }
}

/// The pane that has the focus.
pub open spec fn focused_in(panes: Seq<JsonView>) -> Option<JsonView> {
    first_from(panes, |p: JsonView| p.flag("focused"@), 0)
}

/// The scratchpad of a tab.
pub open spec fn scratchpad_in(panes: Seq<JsonView>, tab: Option<Seq<char>>) -> Option<JsonView> {
    first_from(panes, |p: JsonView| scratchpad(p) && p.field("tab_id"@) == tab, 0)
}

/// What to do about the scratchpad of the tab that has the focus: open one where
/// there is none, or where anything is in doubt; replace a dead one; close the
/// one that has the focus, else give it the focus.
pub open spec fn decision(reply: Option<JsonView>, now: int) -> Seq<char> {
    match json::result_list(reply, "panes"@) {
        None => "OPEN"@,
        Some(panes) => match focused_in(panes) {
            None => "OPEN"@,
            Some(focused) => match scratchpad_in(panes, focused.field("tab_id"@)) {
                None => "OPEN"@,
                Some(pane) => match safe_id(pane) {
                    None => "OPEN"@,
                    Some(id) => if stale(pane, now) {
                        "REPLACE "@ + id
                    } else if focused.field("pane_id"@) == Some(id) {
                        "CLOSE "@ + id
                    } else {
                        "FOCUS "@ + id
                    },
                },
            },
        },
    }
}

/// The id and directory of the pane that has the focus, a tab between them;
/// nothing where there is none or its id is in doubt.
pub open spec fn focus_report(reply: Option<JsonView>) -> Seq<char> {
    match json::result_list(reply, "panes"@) {
        None => Seq::empty(),
        Some(panes) => match focused_in(panes) {
            None => Seq::empty(),
            Some(focused) => match safe_id(focused) {
                None => Seq::empty(),
                Some(id) => id.push('\t') + match focused.field("cwd"@) {
                    Some(cwd) => cwd,
                    None => Seq::empty(),
                },
            },
        },
    }
}

/// A pane that could be split: its lower edge, its left edge, its height.
pub struct Spot {
    pub bottom: int,
    pub x: int,
    pub height: int,
    pub id: Seq<char>,
}

impl Spot {
    /// Lower down, or at the same level further to the left.
    pub open spec fn better(self, other: Spot) -> bool {
        self.bottom > other.bottom || (self.bottom == other.bottom && self.x < other.x)
    }
}

/// A coordinate under a key, zero where there is none.
pub open spec fn coordinate(rect: JsonView, key: Seq<char>) -> int {
    match rect.integer(key) {
        Some(n) => n as int,
        None => 0,
    }
}

/// Where a pane of a layout could be split: nothing for one without a safe id,
/// without a rectangle or without height.
pub open spec fn spot_of(pane: JsonView) -> Option<Spot> {
    match pane.member("rect"@) {
        Some(rect) => {
            let height = coordinate(rect, "height"@);
            if safe_id(pane) is Some && height > 0 {
                Some(
                    Spot {
                        bottom: coordinate(rect, "y"@) + height,
                        x: coordinate(rect, "x"@),
                        height,
                        id: safe_id(pane)->0,
                    },
                )
            } else {
                None
            }
        },
        None => None,
    }
}

/// The best place to split in a layout: the first of the lowest, leftmost panes.
pub open spec fn best_spot(panes: Seq<JsonView>) -> Option<Spot>
    decreases panes.len(),
{
    if panes.len() == 0 {
        None
    } else {
        let before = best_spot(panes.drop_last());
        match spot_of(panes.last()) {
            Some(s) => if before is None || s.better(before->0) {
                Some(s)
            } else {
                before
            },
            None => before,
        }
    }
}

/// The share in hundredths that the split pane keeps: what twelve lines leave of
/// its height, to the nearest hundredth, halves to the even one; at least half
/// of it, at most eighty-five hundredths.
pub open spec fn kept_share(height: int) -> int {
    if height < 24 {
        50
    } else if height > 80 {
        85
    } else {
        text::half_even(100 * (height - 12), height)
    }
}

/// A share in hundredths as a decimal fraction.
pub open spec fn share_text(hundredths: int) -> Seq<char> {
    "0."@.push(text::digit(hundredths / 10)).push(text::digit(hundredths % 10))
}

/// The panes of an answer to a layout request.
pub open spec fn layout_panes(reply: Option<JsonView>) -> Option<Seq<JsonView>> {
    match reply {
        Some(json) => match json.member("result"@) {
            Some(result) => match result.member("layout"@) {
                Some(layout) => layout.list("panes"@),
                None => None,
            },
            None => None,
        },
        None => None,
    }
}

/// The pane to split and the share it keeps, a tab between them; nothing where
/// no pane can be split.
pub open spec fn plan(reply: Option<JsonView>) -> Seq<char> {
    match layout_panes(reply) {
        Some(panes) => match best_spot(panes) {
            Some(spot) => spot.id.push('\t') + share_text(kept_share(spot.height)),
            None => Seq::empty(),
        },
        None => Seq::empty(),
    }
}

proof fn lemma_first_from(
    panes: Seq<JsonView>,
    condition: spec_fn(JsonView) -> bool,
    i: int,
) -> (k: int)
    requires
        0 <= i,
        first_from(panes, condition, i) is Some,
    ensures
        i <= k < panes.len(),
        first_from(panes, condition, i) == Some(panes[k]),
        condition(panes[k]),
    decreases panes.len() - i,
{
    if condition(panes[i]) {
        i
    } else {
        lemma_first_from(panes, condition, i + 1)
    }
}

/// Whatever is not `OPEN` names a scratchpad of the tab that has the focus, by
/// an id that can stand as the argument of a command.
pub proof fn decision_stays_in_the_tab(reply: Option<JsonView>, now: int)
    requires
        decision(reply, now) != "OPEN"@,
    ensures
        json::result_list(reply, "panes"@) matches Some(panes) && focused_in(panes) matches Some(
            focused,
        ) && focused.flag("focused"@) && exists|k: int, id: Seq<char>|
            0 <= k < panes.len() && scratchpad(#[trigger] panes[k]) && panes[k].field("tab_id"@)
                == focused.field("tab_id"@) && panes[k].field("pane_id"@) == Some(id)
                && #[trigger] flag_safe(id) && (decision(reply, now) == "REPLACE "@ + id || decision(
                reply,
                now,
            ) == "CLOSE "@ + id || decision(reply, now) == "FOCUS "@ + id),
{
    let panes = json::result_list(reply, "panes"@)->0;
    let focused = focused_in(panes)->0;
    let tab = focused.field("tab_id"@);
    lemma_first_from(panes, |p: JsonView| p.flag("focused"@), 0);
    let k = lemma_first_from(
        panes,
        |p: JsonView| scratchpad(p) && p.field("tab_id"@) == tab,
        0,
    );
    let id = safe_id(panes[k])->0;
    assert(scratchpad(panes[k]) && flag_safe(id));
}

/// The chosen pane is one of the layout, and none is lower, nor further left at
/// the same level.
pub proof fn plan_picks_the_lowest(panes: Seq<JsonView>)
    ensures
        best_spot(panes) matches Some(s) ==> exists|k: int|
            0 <= k < panes.len() && spot_of(#[trigger] panes[k]) == Some(s),
        forall|k: int|
            0 <= k < panes.len() && spot_of(#[trigger] panes[k]) is Some ==> best_spot(
                panes,
            ) is Some && !spot_of(panes[k])->0.better(best_spot(panes)->0),
    decreases panes.len(),
{
    if panes.len() > 0 {
        let init = panes.drop_last();
        let n = panes.len() - 1;
        plan_picks_the_lowest(init);
        let before = best_spot(init);
        assert(spot_of(panes.last()) == spot_of(panes[n]));
        if let Some(s) = before {
            let k = choose|k: int| 0 <= k < init.len() && spot_of(#[trigger] init[k]) == Some(s);
            assert(spot_of(panes[k]) == Some(s));
        }
        assert forall|k: int|
            0 <= k < panes.len() && spot_of(#[trigger] panes[k]) is Some implies best_spot(
            panes,
        ) is Some && !spot_of(panes[k])->0.better(best_spot(panes)->0) by {
            if k < n {
                assert(panes[k] == init[k]);
            }
        }
    }
}

/// The split pane always keeps at least half of its height and at most
/// eighty-five hundredths of it.
pub proof fn share_is_bounded(height: int)
    requires
        height > 0,
    ensures
        50 <= kept_share(height) <= 85,
{
    if 24 <= height <= 80 {
        let n = 100 * (height - 12);
        let q = n / height;
        let r = n % height;
        vstd::arithmetic::div_mod::lemma_fundamental_div_mod(n, height);
        assert(50 <= q <= 85) by (nonlinear_arith)
            requires
                24 <= height <= 80,
                n == 100 * (height - 12),
                n == height * q + r,
                0 <= r < height,
        ;
        assert(q == 85 ==> r == 0) by (nonlinear_arith)
            requires
                24 <= height <= 80,
                n == 100 * (height - 12),
                n == height * q + r,
                0 <= r < height,
        ;
    }
}

/// Takes the byte order marks off the start of a text: some shells put one
/// before what they redirect.
fn strip_bom(input: &str) -> (rest: &str)
    ensures
        rest@ == after_marks(input@),
{
    let chars = text::chars_of(input);
    let n = input.unicode_len();
    let mut from: usize = 0;
    assert(input@.skip(0) =~= input@);
    while from < n && chars[from] == '\u{feff}'
        invariant
            chars@ == input@,
            n == input@.len(),
            from <= n,
            after_marks(input@) == after_marks(input@.skip(from as int)),
        decreases n - from,
    {
        assert(input@.skip(from as int).skip(1) =~= input@.skip(from + 1));
        from = from + 1;
    }
    assert(input@.skip(from as int) =~= input@.subrange(from as int, n as int));
    input.substring_char(from, n)
}

fn is_safe_char(c: char) -> (safe: bool)
    ensures
        safe == safe_char(c),
{
    (c >= 'a' && c <= 'z') || (c >= 'A' && c <= 'Z') || (c >= '0' && c <= '9') || c == ':' || c
        == '.' || c == '_' || c == '-'
}

/// Whether an id can stand as the argument of a command. One that is empty,
/// begins like a flag or holds anything unusual makes the decision fall back to
/// opening rather than build a dubious command.
pub fn is_flag_safe(id: &str) -> (safe: bool)
    ensures
        safe == flag_safe(id@),
{
    let chars = text::chars_of(id);
    if chars.len() == 0 || chars[0] == '-' {
        return false;
    }
    for i in 0..chars.len()
        invariant
            chars@ == id@,
            forall|k: int| 0 <= k < i ==> safe_char(#[trigger] chars@[k]),
    {
        if !is_safe_char(chars[i]) {
            return false;
        }
    }
    true
}

fn safe_pane_id(pane: &Json) -> (id: Option<&str>)
    ensures
        text::text_view(id) == safe_id(pane@),
{
    match pane.str_field("pane_id") {
        Some(id) => if is_flag_safe(id) {
            Some(id)
        } else {
            None
        },
        None => None,
    }
}

fn token(pane: &Json) -> (token: Option<&Json>)
    ensures
        json::json_view(token) == token_of(pane@),
{
    match pane.get("tokens") {
        Some(tokens) => tokens.get(METADATA_SOURCE),
        None => None,
    }
}

/// Whether a pane is a scratchpad.
pub fn is_scratchpad(pane: &Json) -> (known: bool)
    ensures
        known == scratchpad(pane@),
{
    if token(pane).is_some() {
        return true;
    }
    match pane.str_field("label") {
        Some(label) => text::same(label, PANE_LABEL),
        None => false,
    }
}

/// Whether the stamp of a pane is missing, unreadable or too old at `now`.
///
/// Missing means dead because the launcher stamps a pane before anything runs in
/// it.
pub fn token_stale(pane: &Json, now: u64) -> (dead: bool)
    ensures
        dead == stale(pane@, now as int),
{
    let time: Option<u64> = match token(pane) {
        Some(Json::Number { unsigned, .. }) => *unsigned,
        Some(Json::Text(s)) => text::read_number(s.as_str()),
        _ => None,
    };
    match time {
        Some(ts) => now.saturating_sub(ts) > HEARTBEAT_STALE_SECS,
        None => true,
    }
}

/// Whether two optional strings are the same, or both missing.
fn same_field(a: Option<&str>, b: Option<&str>) -> (equal: bool)
    ensures
        equal == (text::text_view(a) == text::text_view(b)),
{
    match (a, b) {
        (Some(x), Some(y)) => text::same(x, y),
        (None, None) => true,
        _ => false,
    }
}

fn find_focused(panes: &[Json]) -> (found: Option<&Json>)
    ensures
        json::json_view(found) == focused_in(json::trees(panes@)),
{
    let ghost all = json::trees(panes@);
    let ghost condition = |p: JsonView| p.flag("focused"@);
    let mut i: usize = 0;
    while i < panes.len()
        invariant
            i <= panes@.len(),
            all == json::trees(panes@),
            condition == (|p: JsonView| p.flag("focused"@)),
            focused_in(all) == first_from(all, condition, i as int),
        decreases panes@.len() - i,
    {
        assert(all[i as int] == panes@[i as int]@);
        if panes[i].is_set("focused") {
            return Some(&panes[i]);
        }
        i = i + 1;
    }
    None
}

fn find_scratchpad<'a>(panes: &'a [Json], tab: Option<&str>) -> (found: Option<&'a Json>)
    ensures
        json::json_view(found) == scratchpad_in(json::trees(panes@), text::text_view(tab)),
{
    let ghost all = json::trees(panes@);
    let ghost wanted = text::text_view(tab);
    let ghost condition = |p: JsonView| scratchpad(p) && p.field("tab_id"@) == wanted;
    let mut i: usize = 0;
    while i < panes.len()
        invariant
            i <= panes@.len(),
            all == json::trees(panes@),
            wanted == text::text_view(tab),
            condition == (|p: JsonView| scratchpad(p) && p.field("tab_id"@) == wanted),
            scratchpad_in(all, wanted) == first_from(all, condition, i as int),
        decreases panes@.len() - i,
    {
        assert(all[i as int] == panes@[i as int]@);
        if is_scratchpad(&panes[i]) && same_field(panes[i].str_field("tab_id"), tab) {
            return Some(&panes[i]);
        }
        i = i + 1;
    }
    None
}

fn sentence(verb: &str, id: &str) -> (s: String)
    ensures
        s@ == verb@ + id@,
{
    let mut s: String = verb.to_owned();
    s.append(id);
    s
}

/// What to do about the scratchpad, from a pane list that has been read.
pub fn decide(pane_list: &Json, now: u64) -> (out: String)
    ensures
        out@ == decision(Some(pane_list@), now as int),
{
    let panes = match pane_list.result_array("panes") {
        Some(panes) => panes,
        None => {
            return "OPEN".to_owned();
        },
    };
    let focused = match find_focused(panes) {
        Some(pane) => pane,
        None => {
            return "OPEN".to_owned();
        },
    };
    // A scratchpad in another tab does not count: the toggle would jump there.
    let pane = match find_scratchpad(panes, focused.str_field("tab_id")) {
        Some(pane) => pane,
        None => {
            return "OPEN".to_owned();
        },
    };
    let id = match safe_pane_id(pane) {
        Some(id) => id,
        None => {
            return "OPEN".to_owned();
        },
    };
    if token_stale(pane, now) {
        sentence("REPLACE ", id)
    } else if same_field(focused.str_field("pane_id"), Some(id)) {
        sentence("CLOSE ", id)
    } else {
        sentence("FOCUS ", id)
    }
}

/// `OPEN`, `FOCUS <id>`, `CLOSE <id>` or `REPLACE <id>`, from an answer to the
/// pane list request.
///
/// An answer that cannot be read, no pane with the focus or a dubious id all
/// give `OPEN`: one pane too many is a nuisance, closing the wrong one a loss.
pub fn launch_decision(pane_list_json: &str, now: u64) -> (out: String)
    ensures
        out@ == decision(json::parsed(after_marks(pane_list_json@)), now as int),
{
    match json::parse(strip_bom(pane_list_json)) {
        Some(pane_list) => decide(&pane_list, now),
        None => "OPEN".to_owned(),
    }
}

/// The id and directory of the focused pane, from a pane list that has been
/// read.
pub fn report_focus(pane_list: &Json) -> (out: String)
    ensures
        out@ == focus_report(Some(pane_list@)),
{
    let panes = match pane_list.result_array("panes") {
        Some(panes) => panes,
        None => {
            return String::new();
        },
    };
    let focused = match find_focused(panes) {
        Some(pane) => pane,
        None => {
            return String::new();
        },
    };
    let id = match safe_pane_id(focused) {
        Some(id) => id,
        None => {
            return String::new();
        },
    };
    let mut out: String = id.to_owned();
    out.push('\t');
    if let Some(cwd) = focused.str_field("cwd") {
        out.append(cwd);
    }
    assert(out@ =~= focus_report(Some(pane_list@)));
    out
}

/// `<pane id>\t<directory>` of the pane that has the focus, or nothing. The
/// directory goes to the new pane, which then starts where the work is.
pub fn focused_pane(pane_list_json: &str) -> (out: String)
    ensures
        out@ == focus_report(json::parsed(after_marks(pane_list_json@))),
{
    match json::parse(strip_bom(pane_list_json)) {
        Some(pane_list) => report_focus(&pane_list),
        None => String::new(),
    }
}

/// A place to split, in machine integers.
struct Place<'a> {
    bottom: i128,
    x: i64,
    height: i64,
    id: &'a str,
}

impl<'a> Place<'a> {
    spec fn spot(self) -> Spot {
        Spot {
            bottom: self.bottom as int,
            x: self.x as int,
            height: self.height as int,
            id: self.id@,
        }
    }
}

spec fn place_spot(place: Option<Place>) -> Option<Spot> {
    match place {
        Some(p) => Some(p.spot()),
        None => None,
    }
}

fn coordinate_of(rect: &Json, key: &str) -> (n: i64)
    ensures
        n == coordinate(rect@, key@),
{
    match rect.int_field(key) {
        Some(n) => n,
        None => 0,
    }
}

fn place_of<'a>(pane: &'a Json) -> (place: Option<Place<'a>>)
    ensures
        place_spot(place) == spot_of(pane@),
{
    let id = match safe_pane_id(pane) {
        Some(id) => id,
        None => {
            return None;
        },
    };
    let rect = match pane.get("rect") {
        Some(rect) => rect,
        None => {
            return None;
        },
    };
    let x = coordinate_of(rect, "x");
    let y = coordinate_of(rect, "y");
    let height = coordinate_of(rect, "height");
    if height <= 0 {
        return None;
    }
    Some(Place { bottom: y as i128 + height as i128, x, height, id })
}

fn find_place<'a>(panes: &'a [Json]) -> (best: Option<Place<'a>>)
    ensures
        place_spot(best) == best_spot(json::trees(panes@)),
{
    let ghost all = json::trees(panes@);
    let mut best: Option<Place<'a>> = None;
    for i in 0..panes.len()
        invariant
            all == json::trees(panes@),
            place_spot(best) == best_spot(all.take(i as int)),
    {
        proof {
            assert(all.take(i + 1).drop_last() =~= all.take(i as int));
            assert(all[i as int] == panes@[i as int]@);
        }
        if let Some(place) = place_of(&panes[i]) {
            // The lowest first; at the same level, the leftmost.
            let better = match &best {
                Some(b) => place.bottom > b.bottom || (place.bottom == b.bottom && place.x < b.x),
                None => true,
            };
            if better {
                best = Some(place);
            }
        }
    }
    assert(all.take(all.len() as int) =~= all);
    best
}

/// The share in hundredths that a split pane of the given height keeps.
pub fn target_share(height: i64) -> (share: u64)
    requires
        height > 0,
    ensures
        share == kept_share(height as int),
        50 <= share <= 85,
{
    proof {
        share_is_bounded(height as int);
    }
    if height < 24 {
        50
    } else if height > 80 {
        85
    } else {
        let n: u64 = 100 * (height as u64 - 12);
        let h: u64 = height as u64;
        let q: u64 = n / h;
        let r: u64 = n % h;
        if 2 * r > h || (2 * r == h && q % 2 == 1) {
            q + 1
        } else {
            q
        }
    }
}

/// The pane to split, from a layout that has been read.
pub fn plan_split(layout: &Json) -> (out: String)
    ensures
        out@ == plan(Some(layout@)),
{
    let result = match layout.get("result") {
        Some(result) => result,
        None => {
            return String::new();
        },
    };
    let inner = match result.get("layout") {
        Some(inner) => inner,
        None => {
            return String::new();
        },
    };
    let panes = match inner.array_field("panes") {
        Some(panes) => panes,
        None => {
            return String::new();
        },
    };
    match find_place(panes) {
        Some(place) => {
            proof {
                plan_picks_the_lowest(json::trees(panes@));
            }
            let share = target_share(place.height);
            let mut out: String = place.id.to_owned();
            out.push('\t');
            out.append("0.");
            out.append(text::write_decimal(share).as_str());
            proof {
                reveal_with_fuel(text::decimal, 2);
                assert(out@ =~= plan(Some(layout@)));
            }
            out
        },
        None => String::new(),
    }
}

/// `<pane id>\t<share>` for a dock at the bottom, from an answer to the layout
/// request.
///
/// The lowest pane is the one to split: the new one goes below it, against the
/// lower edge. The share is that of the split pane, not of the new one.
pub fn open_plan(layout_json: &str) -> (out: String)
    ensures
        out@ == plan(json::parsed(after_marks(layout_json@))),
{
    match json::parse(strip_bom(layout_json)) {
        Some(layout) => plan_split(&layout),
        None => String::new(),
    }
}

proof fn lemma_first_is(
    panes: Seq<JsonView>,
    condition: spec_fn(JsonView) -> bool,
    i: int,
    k: int,
)
    requires
        0 <= i <= k < panes.len(),
        condition(panes[k]),
        forall|j: int| i <= j < k ==> !condition(#[trigger] panes[j]),
    ensures
        first_from(panes, condition, i) == Some(panes[k]),
    decreases k - i,
{
    if i < k {
        assert(!condition(panes[i]));
        lemma_first_is(panes, condition, i + 1, k);
    }
}

proof fn lemma_first_is_none(panes: Seq<JsonView>, condition: spec_fn(JsonView) -> bool, i: int)
    requires
        0 <= i,
        forall|j: int| 0 <= j < panes.len() ==> !condition(#[trigger] panes[j]),
    ensures
        first_from(panes, condition, i) is None,
    decreases panes.len() - i,
{
    if i < panes.len() {
        lemma_first_is_none(panes, condition, i + 1);
    }
}

/// Without a readable list, or a pane that has the focus, a scratchpad is opened.
pub proof fn doubt_opens_a_scratchpad(reply: Option<JsonView>, now: int)
    requires
        json::result_list(reply, "panes"@) matches Some(panes) ==> forall|j: int|
            0 <= j < panes.len() ==> !(#[trigger] panes[j]).flag("focused"@),
    ensures
        decision(reply, now) == "OPEN"@,
        focus_report(reply).len() == 0,
{
    if let Some(panes) = json::result_list(reply, "panes"@) {
        lemma_first_is_none(panes, |p: JsonView| p.flag("focused"@), 0);
    }
}

/// The first scratchpad of the tab that has the focus decides: it is replaced if
/// it is dead, closed if it has the focus itself, and else given the focus. Where
/// that tab has none, or its id is in doubt, one is opened.
pub proof fn scratchpad_of_the_tab_decides(
    reply: Option<JsonView>,
    panes: Seq<JsonView>,
    f: int,
    s: int,
    now: int,
)
    requires
        json::result_list(reply, "panes"@) == Some(panes),
        0 <= f < panes.len(),
        panes[f].flag("focused"@),
        forall|j: int| 0 <= j < f ==> !(#[trigger] panes[j]).flag("focused"@),
    ensures
        ({
            let here = |p: JsonView| scratchpad(p) && p.field("tab_id"@) == panes[f].field(
                "tab_id"@,
            );
            let line = decision(reply, now);
            &&& (forall|j: int| 0 <= j < panes.len() ==> !here(#[trigger] panes[j])) ==> line
                == "OPEN"@
            &&& 0 <= s < panes.len() && here(panes[s]) && (forall|j: int|
                0 <= j < s ==> !here(#[trigger] panes[j])) ==> match panes[s].field("pane_id"@) {
                Some(id) => {
                    &&& !flag_safe(id) ==> line == "OPEN"@
                    &&& flag_safe(id) && stale(panes[s], now) ==> line == "REPLACE "@ + id
                    &&& flag_safe(id) && !stale(panes[s], now) && panes[f].field("pane_id"@)
                        == Some(id) ==> line == "CLOSE "@ + id
                    &&& flag_safe(id) && !stale(panes[s], now) && panes[f].field("pane_id"@)
                        != Some(id) ==> line == "FOCUS "@ + id
                },
                None => line == "OPEN"@,
            }
        }),
{
    let tab = panes[f].field("tab_id"@);
    let focused = |p: JsonView| p.flag("focused"@);
    let here = |p: JsonView| scratchpad(p) && p.field("tab_id"@) == tab;
    lemma_first_is(panes, focused, 0, f);
    if forall|j: int| 0 <= j < panes.len() ==> !here(#[trigger] panes[j]) {
        lemma_first_is_none(panes, here, 0);
    }
    if 0 <= s < panes.len() && here(panes[s]) && (forall|j: int|
        0 <= j < s ==> !here(#[trigger] panes[j])) {
        lemma_first_is(panes, here, 0, s);
    }
}

/// A scratchpad is known by its token, whatever it holds, or by its label, and by
/// nothing else.
pub proof fn scratchpads_are_known_by_token_or_label(pane: JsonView)
    ensures
        scratchpad(pane) <==> (pane.member("tokens"@) matches Some(t) && t.member(
            "herdr-scratchpad"@,
        ) is Some) || pane.field("label"@) == Some("Scratchpad"@),
{
}

/// A stamp lives for twenty seconds, be it a number or a text that spells one; a
/// pane without a stamp, or with one that cannot be read, is dead.
pub proof fn stamps_live_for_twenty_seconds(pane: JsonView, time: nat, now: int)
    requires
        time <= u64::MAX,
    ensures
        token_of(pane) is None ==> stale(pane, now),
        token_of(pane) == Some(JsonView::Text(text::decimal(time))) ==> (stale(pane, now) <==> now
            - time > 20),
        token_of(pane) matches Some(JsonView::Number { unsigned, .. }) ==> match unsigned {
            Some(n) => stale(pane, now) <==> now - n > 20,
            None => stale(pane, now),
        },
        token_of(pane) matches Some(JsonView::Text(s)) ==> (text::number_of(s) is None ==> stale(
            pane,
            now,
        )),
        token_of(pane) == Some(JsonView::Null) ==> stale(pane, now),
        token_of(pane) matches Some(JsonView::Bool(_)) ==> stale(pane, now),
        token_of(pane) matches Some(JsonView::Array(_)) ==> stale(pane, now),
        token_of(pane) matches Some(JsonView::Object(_)) ==> stale(pane, now),
        token_of(pane) == match pane.member("tokens"@) {
            Some(t) => t.member("herdr-scratchpad"@),
            None => None,
        },
{
    text::number_survives_decimal(time);
}

/// The first pane that has the focus is reported by its id and directory, with a
/// tabulation between them, if its id is in no doubt.
pub proof fn focused_pane_is_reported(
    reply: Option<JsonView>,
    panes: Seq<JsonView>,
    f: int,
    id: Seq<char>,
)
    requires
        json::result_list(reply, "panes"@) == Some(panes),
        0 <= f < panes.len(),
        panes[f].flag("focused"@),
        forall|j: int| 0 <= j < f ==> !(#[trigger] panes[j]).flag("focused"@),
    ensures
        ({
            let line = focus_report(reply);
            &&& panes[f].field("pane_id"@) == Some(id) && flag_safe(id) ==> {
                &&& line.len() > id.len() && line.take(id.len() as int) == id
                &&& line[id.len() as int] == '\t'
                &&& line.skip(id.len() as int + 1) == match panes[f].field("cwd"@) {
                    Some(cwd) => cwd,
                    None => Seq::empty(),
                }
            }
            &&& panes[f].field("pane_id"@) is None || !flag_safe(panes[f].field("pane_id"@)->0)
                ==> line.len() == 0
        }),
{
    lemma_first_is(panes, |p: JsonView| p.flag("focused"@), 0, f);
    if panes[f].field("pane_id"@) == Some(id) && flag_safe(id) {
        let cwd = match panes[f].field("cwd"@) {
            Some(cwd) => cwd,
            None => Seq::empty(),
        };
        let line = focus_report(reply);
        assert(line == id.push('\t') + cwd);
        assert(line.take(id.len() as int) =~= id);
        assert(line.skip(id.len() as int + 1) =~= cwd);
    }
}

/// An id can stand as an argument where it is not empty, does not begin like a
/// flag, and holds letters, digits, colons, dots, underscores and hyphens alone.
pub proof fn safe_ids_hold_no_surprise(id: Seq<char>, i: int)
    requires
        flag_safe(id),
        0 <= i < id.len(),
    ensures
        id[0] != '-',
        'a' <= id[i] <= 'z' || 'A' <= id[i] <= 'Z' || '0' <= id[i] <= '9' || id[i] == ':' || id[i]
            == '.' || id[i] == '_' || id[i] == '-',
{
    assert(safe_char(id[i]));
}

/// Ids of the shape the server gives are never in doubt.
pub proof fn plain_ids_are_safe(id: Seq<char>)
    requires
        id.len() > 0,
        forall|i: int|
            0 <= i < id.len() ==> 'a' <= #[trigger] id[i] <= 'z' || 'A' <= id[i] <= 'Z' || '0'
                <= id[i] <= '9' || id[i] == ':' || id[i] == '.' || id[i] == '_' || (i > 0 && id[i]
                == '-'),
    ensures
        flag_safe(id),
{
    assert(id[0] != '-');
}

/// Of panes at the same place the first is split: no pane before the chosen one
/// is as good.
pub proof fn first_of_the_best_is_split(panes: Seq<JsonView>) -> (k: int)
    requires
        best_spot(panes) is Some,
    ensures
        0 <= k < panes.len(),
        spot_of(panes[k]) == best_spot(panes),
        forall|j: int|
            0 <= j < k && spot_of(#[trigger] panes[j]) is Some ==> spot_of(
                panes[k],
            )->0.better(spot_of(panes[j])->0),
    decreases panes.len(),
{
    let init = panes.drop_last();
    let n = panes.len() - 1;
    let before = best_spot(init);
    plan_picks_the_lowest(init);
    if spot_of(panes[n]) is Some && (before is None || spot_of(panes[n])->0.better(before->0)) {
        assert forall|j: int| 0 <= j < n && spot_of(#[trigger] panes[j]) is Some implies spot_of(
            panes[n],
        )->0.better(spot_of(panes[j])->0) by {
            assert(init[j] == panes[j]);
        }
        n
    } else {
        let k = first_of_the_best_is_split(init);
        assert(init[k] == panes[k]);
        assert forall|j: int| 0 <= j < k && spot_of(#[trigger] panes[j]) is Some implies spot_of(
            panes[k],
        )->0.better(spot_of(panes[j])->0) by {
            assert(init[j] == panes[j]);
        }
        k
    }
}

/// A pane can be split where it has a safe id and a height; it lies as low as its
/// top and its height say, and coordinates that are missing count as zero.
pub proof fn spots_lie_where_the_panes_do(pane: JsonView, rect: JsonView, id: Seq<char>)
    requires
        pane.member("rect"@) == Some(rect),
        pane.field("pane_id"@) == Some(id),
    ensures
        ({
            let number = |key: Seq<char>|
                match rect.integer(key) {
                    Some(n) => n as int,
                    None => 0,
                };
            &&& flag_safe(id) && number("height"@) > 0 ==> spot_of(pane) == Some(
                Spot {
                    bottom: number("y"@) + number("height"@),
                    x: number("x"@),
                    height: number("height"@),
                    id,
                },
            )
            &&& !flag_safe(id) || number("height"@) <= 0 ==> spot_of(pane) is None
        }),
{
}

/// The share leaves about twelve lines to the new pane: to the nearest hundredth
/// where that is between a half and eighty-five hundredths, and else the nearer
/// of these two.
pub proof fn share_leaves_twelve_lines(height: int)
    requires
        height > 0,
    ensures
        height < 24 ==> kept_share(height) == 50,
        height > 80 ==> kept_share(height) == 85,
        24 <= height <= 80 ==> -height <= 2 * (100 * (height - 12) - kept_share(height) * height)
            <= height,
{
    text::rounding_is_to_the_nearest(100 * (height - 12), height);
}

/// The plan names the pane to split and its share as a decimal fraction, with a
/// tabulation between them, and is empty where there is nothing to split.
pub proof fn plan_names_the_pane_and_its_share(reply: Option<JsonView>, panes: Seq<JsonView>)
    requires
        layout_panes(reply) == Some(panes),
    ensures
        best_spot(panes) is None ==> plan(reply).len() == 0,
        best_spot(panes) matches Some(spot) ==> spot.height > 0 ==> {
            let n = spot.id.len() as int;
            let share = plan(reply).skip(n + 1);
            &&& plan(reply).take(n) == spot.id
            &&& plan(reply)[n] == '\t'
            &&& share.len() == 4 && share[0] == '0' && share[1] == '.'
            &&& 10 * (share[2] as int - 48) + (share[3] as int - 48) == kept_share(spot.height)
        },
{
    if let Some(spot) = best_spot(panes) {
        if spot.height > 0 {
            let n = spot.id.len() as int;
            share_is_bounded(spot.height);
            reveal_strlit("0.");
            let share = share_text(kept_share(spot.height));
            assert(plan(reply) == spot.id.push('\t') + share);
            assert(plan(reply).take(n) =~= spot.id);
            assert(plan(reply).skip(n + 1) =~= share);
        }
    }
}

/// Only byte order marks are taken off a text, all that it begins with.
pub proof fn only_leading_marks_are_taken_off(s: Seq<char>)
    ensures
        ({
            let rest = after_marks(s);
            let n = s.len() - rest.len();
            &&& 0 <= n
            &&& rest == s.skip(n)
            &&& forall|i: int| 0 <= i < n ==> #[trigger] s[i] == '\u{feff}'
            &&& rest.len() > 0 ==> rest[0] != '\u{feff}'
        }),
    decreases s.len(),
{
    if s.len() > 0 && s[0] == '\u{feff}' {
        let tail = s.skip(1);
        only_leading_marks_are_taken_off(tail);
        let rest = after_marks(tail);
        let n = s.len() - rest.len();
        assert(rest =~= s.skip(n));
        assert forall|i: int| 0 <= i < n implies #[trigger] s[i] == '\u{feff}' by {
            if i > 0 {
                assert(tail[i - 1] == s[i]);
            }
        }
    } else {
        assert(s.skip(0) =~= s);
    }
}

} // verus!
