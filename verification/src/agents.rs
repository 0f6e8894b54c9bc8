//! The agents that can be reached, and the choice of the one to send to.
//!
//! The scope is the tab: agents elsewhere are no targets, whatever happens. A
//! scratchpad alone in its tab has none, and is a local notepad.
use crate::json;
use crate::json::{Json, JsonView};
use crate::text;
use crate::width;
use vstd::prelude::*;

verus! {

/// The name of an agent the server does not name.
pub const UNNAMED: &'static str = "agent";

/// An agent that can be reached, in the tab of this pane.
#[derive(Debug, PartialEq, Eq)]
pub struct Target {
    pub pane_id: String,
    /// Short name of the agent, `hermes` for instance.
    pub agent: String,
}

/// A target as plain text.
pub struct TargetView {
    pub pane_id: Seq<char>,
    pub agent: Seq<char>,
}

impl View for Target {
    type V = TargetView;

    open spec fn view(&self) -> TargetView {
        TargetView { pane_id: self.pane_id@, agent: self.agent@ }
    }
}

impl Clone for Target {
    fn clone(&self) -> (copy: Self)
        ensures
            copy@ == self@,
    {
        Target { pane_id: self.pane_id.clone(), agent: self.agent.clone() }
    }
}

/// The targets of a list as plain text.
pub open spec fn views(list: Seq<Target>) -> Seq<TargetView> {
    list.map_values(|t: Target| t@)
}

/// The target after `current`, in a loop. An index that has become too large
/// falls back to the first target: cycling never gets stuck.
pub fn next(targets: &[Target], current: Option<usize>) -> (n: Option<usize>)
    ensures
        n == if targets@.len() == 0 {
            None
        } else if current is Some && current->0 + 1 < targets@.len() {
            Some((current->0 + 1) as usize)
        } else {
            Some(0usize)
        },
{
    if targets.len() == 0 {
        return None;
    }
    match current {
        Some(i) => if i < targets.len() - 1 {
            Some(i + 1)
        } else {
            Some(0)
        },
        None => Some(0),
    }
}

/// Where the part after the last `:` begins.
pub open spec fn suffix_start(pane_id: Seq<char>) -> int
    decreases pane_id.len(),
{
    if pane_id.len() == 0 {
        0
    } else if pane_id.last() == ':' {
        pane_id.len() as int
    } else {
        suffix_start(pane_id.drop_last())
    }
}

/// What tells two targets apart: the part of the pane id after the last `:`, the
/// whole id where there is none.
pub open spec fn suffix_of(pane_id: Seq<char>) -> Seq<char> {
    pane_id.skip(suffix_start(pane_id))
}

/// The label of a target in full: arrow, name, suffix.
pub open spec fn full_label(target: TargetView) -> Seq<char> {
    "→ "@ + target.agent + "·"@ + suffix_of(target.pane_id)
}

/// The label of a target without its suffix.
pub open spec fn short_label(target: TargetView) -> Seq<char> {
    "→ "@ + target.agent
}

/// The label of a target in `width` columns, given the columns of the characters
/// of its full and of its short label: the full one where it fits, else as much
/// of the short one as does.
pub open spec fn trimmed_label(
    target: TargetView,
    full: Seq<usize>,
    short: Seq<usize>,
    width: int,
) -> Seq<char> {
    if width::total(full) <= width {
        full_label(target)
    } else {
        short_label(target).take(width::fit(short, width))
    }
}

/// The label of a target in `width` columns.
pub open spec fn label_of(target: TargetView, width: int) -> Seq<char> {
    trimmed_label(
        target,
        width::widths(full_label(target)),
        width::widths(short_label(target)),
        width,
    )
}

/// The suffix lies within the id and holds no `:`; before it stands one, unless
/// it is the whole id.
pub proof fn suffix_follows_last_colon(pane_id: Seq<char>)
    ensures
        0 <= suffix_start(pane_id) <= pane_id.len(),
        !suffix_of(pane_id).contains(':'),
        suffix_start(pane_id) > 0 ==> pane_id[suffix_start(pane_id) - 1] == ':',
    decreases pane_id.len(),
{
    if pane_id.len() > 0 && pane_id.last() != ':' {
        let init = pane_id.drop_last();
        suffix_follows_last_colon(init);
        let from = suffix_start(init);
        assert forall|k: int| 0 <= k < suffix_of(pane_id).len() implies suffix_of(pane_id)[k]
            != ':' by {
            if from + k < init.len() {
                assert(suffix_of(init)[k] == suffix_of(pane_id)[k]);
                assert(suffix_of(init).contains(suffix_of(init)[k]));
            }
        }
    }
}

/// A label never takes more columns than it was given.
pub proof fn label_fits_its_width(target: TargetView, width: int)
    requires
        width >= 0,
    ensures
        width::total(width::widths(label_of(target, width))) <= width,
{
    let short = short_label(target);
    let ws = width::widths(short);
    width::fit_is_the_longest_prefix(ws, width);
    let n = width::fit(ws, width);
    assert(width::widths(short.take(n)) =~= ws.take(n));
}

/// A label that lacks its full suffix holds none of it: it is a prefix of the
/// label without suffix.
pub proof fn suffix_is_dropped_whole(target: TargetView, width: int)
    requires
        width >= 0,
    ensures
        label_of(target, width) == full_label(target) || exists|n: int|
            0 <= n <= short_label(target).len() && label_of(target, width) == #[trigger] short_label(
                target,
            ).take(n),
{
    width::fit_is_the_longest_prefix(width::widths(short_label(target)), width);
}

/// Two targets with the same agent name and different suffixes never share a
/// full label.
pub proof fn full_labels_tell_panes_apart(a: TargetView, b: TargetView)
    requires
        a.agent == b.agent,
        suffix_of(a.pane_id) != suffix_of(b.pane_id),
    ensures
        full_label(a) != full_label(b),
{
    if full_label(a) == full_label(b) {
        let head = "→ "@ + a.agent + "·"@;
        assert(full_label(a).skip(head.len() as int) =~= suffix_of(a.pane_id));
        assert(full_label(b).skip(head.len() as int) =~= suffix_of(b.pane_id));
    }
}

/// The part of a pane id after the last `:`.
fn suffix(pane_id: &str) -> (s: &str)
    ensures
        s@ == suffix_of(pane_id@),
{
    let n = pane_id.unicode_len();
    let chars = text::chars_of(pane_id);
    let mut from: usize = n;
    assert(pane_id@.take(n as int) =~= pane_id@);
    while from > 0 && chars[from - 1] != ':'
        invariant
            chars@ == pane_id@,
            n == pane_id@.len(),
            from <= n,
            suffix_start(pane_id@) == suffix_start(pane_id@.take(from as int)),
        decreases from,
    {
        proof {
            assert(pane_id@.take(from as int).drop_last() =~= pane_id@.take(from - 1));
        }
        from = from - 1;
    }
    proof {
        suffix_follows_last_colon(pane_id@);
        if from > 0 {
            assert(pane_id@.take(from as int).last() == ':');
        }
        assert(suffix_of(pane_id@) =~= pane_id@.subrange(from as int, n as int));
    }
    pane_id.substring_char(from, n)
}

/// As many characters of `s` as fit into `width` columns, given the columns of
/// each.
pub fn truncate(s: &str, ws: &[usize], width: usize) -> (out: String)
    requires
        ws@.len() == s@.len(),
    ensures
        out@ == s@.take(width::fit(ws@, width as int)),
{
    let n = width::fitting(ws, width);
    s.substring_char(0, n).to_owned()
}

fn short_text(target: &Target) -> (s: String)
    ensures
        s@ == short_label(target@),
{
    let mut s: String = "→ ".to_owned();
    s.append(target.agent.as_str());
    s
}

fn full_text(target: &Target) -> (s: String)
    ensures
        s@ == full_label(target@),
{
    let mut s = short_text(target);
    s.append("·");
    s.append(suffix(target.pane_id.as_str()));
    s
}

/// The label of a target in `width` columns, given the columns of each character
/// of its full and of its short label.
pub fn label_measured(target: &Target, full: &[usize], short: &[usize], width: usize) -> (out:
    String)
    requires
        full@.len() == full_label(target@).len(),
        short@.len() == short_label(target@).len(),
    ensures
        out@ == trimmed_label(target@, full@, short@, width as int),
{
    proof {
        width::fit_is_the_longest_prefix(full@, width as int);
        assert(full@.take(full@.len() as int) =~= full@);
    }
    if width::fitting(full, width) == full.len() {
        full_text(target)
    } else {
        let s = short_text(target);
        truncate(s.as_str(), short, width)
    }
}

/// The label of the target zone, trimmed to `width` columns: `→ hermes·p3`.
///
/// The suffix goes as a whole before the name is touched: a trimmed suffix could
/// just as well mean the pane next door.
pub fn label(target: &Target, width: usize) -> (out: String)
    ensures
        out@ == label_of(target@, width as int),
        width::total(width::widths(out@)) <= width,
{
    proof {
        label_fits_its_width(target@, width as int);
    }
    let full = full_text(target);
    let short = short_text(target);
    let full_widths = width::measure(full.as_str());
    let short_widths = width::measure(short.as_str());
    label_measured(target, full_widths.as_slice(), short_widths.as_slice(), width)
}

/// A string under a key that is there and not empty.
pub open spec fn present(value: JsonView, key: Seq<char>) -> Option<Seq<char>> {
    match value.field(key) {
        Some(s) => if s.len() > 0 {
            Some(s)
        } else {
            None
        },
        None => None,
    }
}

/// The name of an agent, with a stand-in where the server gives none: leaving
/// the entry out would cost a perfectly good target for want of a label.
pub open spec fn name_of(agent: JsonView) -> Seq<char> {
    match present(agent, "agent"@) {
        Some(s) => s,
        None => match present(agent, "display_agent"@) {
            Some(s) => s,
            None => match present(agent, "name"@) {
                Some(s) => s,
                None => UNNAMED@,
            },
        },
    }
}

/// The target an entry of the agent list stands for: nothing for an agent of
/// another tab, for one without a pane, and for the pane to leave out.
pub open spec fn candidate(
    agent: JsonView,
    tab_id: Seq<char>,
    exclude: Option<Seq<char>>,
) -> Option<TargetView> {
    match present(agent, "pane_id"@) {
        Some(pane_id) => if present(agent, "tab_id"@) == Some(tab_id) && exclude != Some(pane_id) {
            Some(TargetView { pane_id, agent: name_of(agent) })
        } else {
            None
        },
        None => None,
    }
}

/// The targets of an agent list, in its own order.
pub open spec fn candidates(
    list: Seq<JsonView>,
    tab_id: Seq<char>,
    exclude: Option<Seq<char>>,
) -> Seq<TargetView>
    decreases list.len(),
{
    if list.len() == 0 {
        Seq::empty()
    } else {
        let before = candidates(list.drop_last(), tab_id, exclude);
        match candidate(list.last(), tab_id, exclude) {
            Some(t) => before.push(t),
            None => before,
        }
    }
}

/// Where a target goes among the first `n` of an ordered list: after all those
/// whose pane id does not come after its own.
pub open spec fn slot(list: Seq<TargetView>, pane_id: Seq<char>, n: int) -> int
    decreases n,
{
    if 0 < n <= list.len() && text::precedes(pane_id, list[n - 1].pane_id) {
        slot(list, pane_id, n - 1)
    } else {
        n
    }
}

/// The targets ordered by pane id; those with the same id keep their order.
pub open spec fn in_order(list: Seq<TargetView>) -> Seq<TargetView>
    decreases list.len(),
{
    if list.len() == 0 {
        Seq::empty()
    } else {
        let before = in_order(list.drop_last());
        before.insert(slot(before, list.last().pane_id, before.len() as int), list.last())
    }
}

/// The targets an answer to `agent.list` gives a pane: none without a tab, none
/// in an answer that cannot be read.
pub open spec fn targets_in(
    reply: Option<JsonView>,
    tab_id: Option<Seq<char>>,
    exclude: Option<Seq<char>>,
) -> Seq<TargetView> {
    match json::result_list(reply, "agents"@) {
        Some(list) => if tab_id is Some && tab_id->0.len() > 0 {
            in_order(candidates(list, tab_id->0, exclude))
        } else {
            Seq::empty()
        },
        None => Seq::empty(),
    }
}

/// The tab ids of a tab list, in its own order.
pub open spec fn tab_ids(list: Seq<JsonView>) -> Seq<Seq<char>>
    decreases list.len(),
{
    if list.len() == 0 {
        Seq::empty()
    } else {
        let before = tab_ids(list.drop_last());
        match present(list.last(), "tab_id"@) {
            Some(id) => before.push(id),
            None => before,
        }
    }
}

/// The live tabs an answer to `tab.list` names: none in one that cannot be read.
pub open spec fn live_in(reply: Option<JsonView>) -> Seq<Seq<char>> {
    match json::result_list(reply, "tabs"@) {
        Some(list) => tab_ids(list),
        None => Seq::empty(),
    }
}

/// Whether pane ids never go down from one target to a later one.
pub open spec fn ordered(list: Seq<TargetView>) -> bool {
    forall|i: int, j: int|
        0 <= i < j < list.len() ==> !text::precedes(
            (#[trigger] list[j]).pane_id,
            (#[trigger] list[i]).pane_id,
        )
}

/// The targets with a given pane id, in order.
pub open spec fn with_id(list: Seq<TargetView>, pane_id: Seq<char>) -> Seq<TargetView> {
    list.filter(|t: TargetView| t.pane_id == pane_id)
}

proof fn lemma_slot(list: Seq<TargetView>, pane_id: Seq<char>, n: int)
    requires
        0 <= n <= list.len(),
    ensures
        0 <= slot(list, pane_id, n) <= n,
        slot(list, pane_id, n) > 0 ==> !text::precedes(
            pane_id,
            list[slot(list, pane_id, n) - 1].pane_id,
        ),
        forall|j: int|
            slot(list, pane_id, n) <= j < n ==> text::precedes(
                pane_id,
                (#[trigger] list[j]).pane_id,
            ),
    decreases n,
{
    if n > 0 && text::precedes(pane_id, list[n - 1].pane_id) {
        lemma_slot(list, pane_id, n - 1);
    }
}

/// Two texts of which neither comes after the next.
proof fn lemma_not_after(a: Seq<char>, b: Seq<char>, c: Seq<char>)
    requires
        !text::precedes(b, a),
        !text::precedes(c, b),
    ensures
        !text::precedes(c, a),
{
    text::precedes_is_total(a, b);
    text::precedes_is_total(b, c);
    if text::precedes(c, a) {
        if a != b {
            text::precedes_is_transitive(c, a, b);
        }
    }
}

/// Ordering keeps every target, and orders them by pane id.
pub proof fn ordering_sorts(list: Seq<TargetView>)
    ensures
        in_order(list).len() == list.len(),
        in_order(list).to_multiset() == list.to_multiset(),
        ordered(in_order(list)),
    decreases list.len(),
{
    if list.len() == 0 {
        assert(list =~= Seq::empty());
    } else {
        let init = list.drop_last();
        let last = list.last();
        ordering_sorts(init);
        let before = in_order(init);
        let at = slot(before, last.pane_id, before.len() as int);
        let after = in_order(list);
        lemma_slot(before, last.pane_id, before.len() as int);
        before.to_multiset_ensures();
        vstd::seq_lib::to_multiset_insert(before, at, last);
        assert(init.push(last) =~= list);
        init.to_multiset_ensures();
        assert(after.to_multiset() =~= list.to_multiset());
        assert forall|i: int, j: int| 0 <= i < j < after.len() implies !text::precedes(
            (#[trigger] after[j]).pane_id,
            (#[trigger] after[i]).pane_id,
        ) by {
            if i < at && j == at {
                if i < at - 1 {
                    assert(!text::precedes(before[at - 1].pane_id, before[i].pane_id));
                    lemma_not_after(before[i].pane_id, before[at - 1].pane_id, last.pane_id);
                }
            } else if i == at {
                assert(after[j] == before[j - 1]);
                text::precedes_is_total(last.pane_id, before[j - 1].pane_id);
            } else {
                let k = if i < at {
                    i
                } else {
                    i - 1
                };
                let m = if j < at {
                    j
                } else {
                    j - 1
                };
                assert(after[i] == before[k]);
                assert(after[j] == before[m]);
            }
        }
    }
}

/// A list without the pane id gives nothing for it.
proof fn lemma_none_with_id(list: Seq<TargetView>, pane_id: Seq<char>)
    requires
        forall|i: int| 0 <= i < list.len() ==> (#[trigger] list[i]).pane_id != pane_id,
    ensures
        with_id(list, pane_id) == Seq::<TargetView>::empty(),
    decreases list.len(),
{
    reveal(Seq::filter);
    if list.len() > 0 {
        let init = list.drop_last();
        assert forall|i: int| 0 <= i < init.len() implies (#[trigger] init[i]).pane_id
            != pane_id by {
            assert(init[i] == list[i]);
        }
        lemma_none_with_id(init, pane_id);
        assert(list.last() == list[list.len() - 1]);
    }
}

/// Ordering is stable: targets with the same pane id keep their order.
pub proof fn ordering_is_stable(list: Seq<TargetView>, pane_id: Seq<char>)
    ensures
        with_id(in_order(list), pane_id) == with_id(list, pane_id),
    decreases list.len(),
{
    reveal(Seq::filter);
    if list.len() > 0 {
        let p = |t: TargetView| t.pane_id == pane_id;
        let init = list.drop_last();
        let last = list.last();
        ordering_is_stable(init, pane_id);
        let before = in_order(init);
        let at = slot(before, last.pane_id, before.len() as int);
        lemma_slot(before, last.pane_id, before.len() as int);
        let head = before.take(at);
        let tail = before.skip(at);
        assert(before =~= head + tail);
        assert(before.insert(at, last) =~= head.push(last) + tail);
        Seq::filter_distributes_over_add(head, tail, p);
        Seq::filter_distributes_over_add(head.push(last), tail, p);
        assert(head.push(last).drop_last() =~= head);
        if last.pane_id == pane_id {
            assert forall|i: int| 0 <= i < tail.len() implies (#[trigger] tail[i]).pane_id
                != pane_id by {
                assert(tail[i] == before[at + i]);
                text::precedes_is_total(pane_id, pane_id);
            }
            lemma_none_with_id(tail, pane_id);
            assert(head.filter(p) + tail.filter(p) =~= head.filter(p));
            assert(head.push(last).filter(p) + tail.filter(p) =~= head.filter(p).push(last));
        }
    }
}

/// Whether no two targets share a pane id.
pub open spec fn distinct(list: Seq<TargetView>) -> bool {
    forall|i: int, j: int|
        0 <= i < list.len() && 0 <= j < list.len() && (#[trigger] list[i]).pane_id == (
        #[trigger] list[j]).pane_id ==> i == j
}

/// Two ordered lists of the same targets, without repeated ids, are one list.
proof fn lemma_ordered_lists_agree(a: Seq<TargetView>, b: Seq<TargetView>)
    requires
        ordered(a),
        ordered(b),
        distinct(a),
        distinct(b),
        forall|t: TargetView| a.contains(t) <==> b.contains(t),
    ensures
        a == b,
    decreases a.len(),
{
    if a.len() == 0 {
        if b.len() > 0 {
            assert(b.contains(b[0]));
            assert(a.contains(b[0]));
        }
        assert(a =~= b);
    } else {
        assert(a.contains(a.last()));
        assert(b.contains(a.last()));
        let j = choose|j: int| 0 <= j < b.len() && b[j] == a.last();
        let m = b.len() - 1;
        assert(b.contains(b[m]));
        assert(a.contains(b[m]));
        let i = choose|i: int| 0 <= i < a.len() && a[i] == b[m];
        let n = a.len() - 1;
        if j < m {
            assert(!text::precedes(b[m].pane_id, b[j].pane_id));
            if i < n {
                assert(!text::precedes(a[n].pane_id, a[i].pane_id));
            }
            text::precedes_is_total(b[m].pane_id, b[j].pane_id);
            assert(b[m].pane_id == b[j].pane_id);
            assert(false);
        }
        let x = a.drop_last();
        let y = b.drop_last();
        assert forall|t: TargetView| x.contains(t) <==> y.contains(t) by {
            if x.contains(t) {
                let k = choose|k: int| 0 <= k < x.len() && x[k] == t;
                assert(a[k] == t);
                assert(a.contains(t));
                assert(b.contains(t));
                let l = choose|l: int| 0 <= l < b.len() && b[l] == t;
                if l == m {
                    assert(a[k].pane_id == a[n].pane_id);
                }
                assert(y[l] == t);
            }
            if y.contains(t) {
                let k = choose|k: int| 0 <= k < y.len() && y[k] == t;
                assert(b[k] == t);
                assert(b.contains(t));
                assert(a.contains(t));
                let l = choose|l: int| 0 <= l < a.len() && a[l] == t;
                if l == n {
                    assert(b[k].pane_id == b[m].pane_id);
                }
                assert(x[l] == t);
            }
        }
        assert forall|p: int, q: int|
            0 <= p < x.len() && 0 <= q < x.len() && (#[trigger] x[p]).pane_id == (
            #[trigger] x[q]).pane_id implies p == q by {
            assert(a[p].pane_id == a[q].pane_id);
        }
        assert forall|p: int, q: int|
            0 <= p < y.len() && 0 <= q < y.len() && (#[trigger] y[p]).pane_id == (
            #[trigger] y[q]).pane_id implies p == q by {
            assert(b[p].pane_id == b[q].pane_id);
        }
        assert forall|p: int, q: int| 0 <= p < q < x.len() implies !text::precedes(
            (#[trigger] x[q]).pane_id,
            (#[trigger] x[p]).pane_id,
        ) by {
            assert(!text::precedes(a[q].pane_id, a[p].pane_id));
        }
        assert forall|p: int, q: int| 0 <= p < q < y.len() implies !text::precedes(
            (#[trigger] y[q]).pane_id,
            (#[trigger] y[p]).pane_id,
        ) by {
            assert(!text::precedes(b[q].pane_id, b[p].pane_id));
        }
        lemma_ordered_lists_agree(x, y);
        assert(a =~= x.push(a.last()));
        assert(b =~= y.push(b.last()));
    }
}

/// The order of the targets does not depend on the order the server lists them
/// in, as long as each pane is listed once.
pub proof fn order_ignores_the_reply_order(a: Seq<TargetView>, b: Seq<TargetView>)
    requires
        distinct(a),
        a.to_multiset() == b.to_multiset(),
    ensures
        in_order(a) == in_order(b),
{
    ordering_sorts(a);
    ordering_sorts(b);
    let x = in_order(a);
    let y = in_order(b);
    a.to_multiset_ensures();
    x.to_multiset_ensures();
    y.to_multiset_ensures();
    lemma_distinct_kept(a, x);
    lemma_distinct_kept(a, y);
    assert forall|t: TargetView| x.contains(t) <==> y.contains(t) by {
        assert(x.contains(t) <==> x.to_multiset().count(t) > 0);
        assert(y.contains(t) <==> y.to_multiset().count(t) > 0);
    }
    lemma_ordered_lists_agree(x, y);
}

/// Rearranging targets repeats no pane id.
proof fn lemma_distinct_kept(a: Seq<TargetView>, b: Seq<TargetView>)
    requires
        distinct(a),
        a.to_multiset() == b.to_multiset(),
    ensures
        distinct(b),
{
    a.to_multiset_ensures();
    b.to_multiset_ensures();
    assert(a.no_duplicates()) by {
        assert forall|i: int, j: int|
            0 <= i < a.len() && 0 <= j < a.len() && i != j implies a[i] != a[j] by {
            if a[i] == a[j] {
                assert(a[i].pane_id == a[j].pane_id);
            }
        }
    }
    a.lemma_multiset_has_no_duplicates();
    assert forall|i: int, j: int|
        0 <= i < b.len() && 0 <= j < b.len() && (#[trigger] b[i]).pane_id == (
        #[trigger] b[j]).pane_id implies i == j by {
        assert(b.contains(b[i]));
        assert(b.contains(b[j]));
        assert(b.to_multiset().count(b[i]) > 0);
        assert(b.to_multiset().count(b[j]) > 0);
        assert(a.contains(b[i]));
        assert(a.contains(b[j]));
        let k = choose|k: int| 0 <= k < a.len() && a[k] == b[i];
        let l = choose|l: int| 0 <= l < a.len() && a[l] == b[j];
        assert(a[k].pane_id == a[l].pane_id);
        assert(b[i] == b[j]);
        if i != j {
            let c = b.remove(i);
            let m = if j < i {
                j
            } else {
                j - 1
            };
            assert(c[m] == b[i]);
            assert(c.contains(b[i]));
            c.to_multiset_ensures();
            assert(c.to_multiset().count(b[i]) > 0);
            assert(c.to_multiset() == b.to_multiset().remove(b[i]));
            assert(b.to_multiset().count(b[i]) >= 2);
            assert(a.to_multiset().count(b[i]) == 1);
        }
    }
}

/// Every target is an agent of the tab, with a pane of its own that is not the
/// one to leave out.
pub proof fn targets_live_in_the_tab(
    reply: Option<JsonView>,
    tab_id: Option<Seq<char>>,
    exclude: Option<Seq<char>>,
    t: TargetView,
)
    requires
        targets_in(reply, tab_id, exclude).contains(t),
    ensures
        tab_id is Some,
        t.pane_id.len() > 0,
        exclude != Some(t.pane_id),
        json::result_list(reply, "agents"@) matches Some(list) && exists|i: int|
            0 <= i < list.len() && present(#[trigger] list[i], "tab_id"@) == tab_id && present(
                list[i],
                "pane_id"@,
            ) == Some(t.pane_id),
{
    let list = json::result_list(reply, "agents"@)->0;
    let found = candidates(list, tab_id->0, exclude);
    ordering_sorts(found);
    found.to_multiset_ensures();
    in_order(found).to_multiset_ensures();
    assert(in_order(found).to_multiset().count(t) > 0);
    assert(found.contains(t));
    let i = lemma_candidate_origin(list, tab_id->0, exclude, t);
    assert(present(list[i], "tab_id"@) == tab_id);
}

proof fn lemma_candidate_origin(
    list: Seq<JsonView>,
    tab_id: Seq<char>,
    exclude: Option<Seq<char>>,
    t: TargetView,
) -> (i: int)
    requires
        candidates(list, tab_id, exclude).contains(t),
    ensures
        0 <= i < list.len(),
        candidate(list[i], tab_id, exclude) == Some(t),
    decreases list.len(),
{
    let init = list.drop_last();
    let before = candidates(init, tab_id, exclude);
    let whole = candidates(list, tab_id, exclude);
    let k = choose|k: int| 0 <= k < whole.len() && whole[k] == t;
    if k < before.len() {
        assert(before[k] == t);
        assert(before.contains(t));
        lemma_candidate_origin(init, tab_id, exclude, t)
    } else {
        list.len() - 1
    }
}

/// A string field that is there and not empty.
fn str_field<'a>(value: &'a Json, key: &str) -> (s: Option<&'a str>)
    ensures
        text::text_view(s) == present(value@, key@),
{
    match value.str_field(key) {
        Some(s) => if s.unicode_len() > 0 {
            Some(s)
        } else {
            None
        },
        None => None,
    }
}

fn agent_name(agent: &Json) -> (name: String)
    ensures
        name@ == name_of(agent@),
{
    if let Some(s) = str_field(agent, "agent") {
        return s.to_owned();
    }
    if let Some(s) = str_field(agent, "display_agent") {
        return s.to_owned();
    }
    if let Some(s) = str_field(agent, "name") {
        return s.to_owned();
    }
    UNNAMED.to_owned()
}

/// An optional target as plain text.
pub open spec fn target_view(target: Option<Target>) -> Option<TargetView> {
    match target {
        Some(t) => Some(t@),
        None => None,
    }
}

fn target_of(agent: &Json, tab_id: &str, exclude: Option<&str>) -> (target: Option<Target>)
    ensures
        target_view(target) == candidate(agent@, tab_id@, text::text_view(exclude)),
{
    let pane_id = match str_field(agent, "pane_id") {
        Some(id) => id,
        None => {
            return None;
        },
    };
    match str_field(agent, "tab_id") {
        Some(tab) => if !text::same(tab, tab_id) {
            return None;
        },
        None => {
            return None;
        },
    }
    if let Some(own) = exclude {
        if text::same(own, pane_id) {
            return None;
        }
    }
    Some(Target { pane_id: pane_id.to_owned(), agent: agent_name(agent) })
}

/// Puts a target into its place in an ordered list.
fn place(list: &mut Vec<Target>, target: Target)
    ensures
        views(final(list)@) == views(old(list)@).insert(
            slot(views(old(list)@), target@.pane_id, old(list)@.len() as int),
            target@,
        ),
{
    let ghost before = views(list@);
    let ghost placed = target@;
    let mut at: usize = list.len();
    while at > 0 && text::comes_before(target.pane_id.as_str(), list[at - 1].pane_id.as_str())
        invariant
            at <= list@.len(),
            before == views(list@),
            target@ == placed,
            slot(before, placed.pane_id, list@.len() as int) == slot(
                before,
                placed.pane_id,
                at as int,
            ),
        decreases at,
    {
        assert(before[at - 1] == list@[at - 1]@);
        at = at - 1;
    }
    if at > 0 {
        assert(before[at - 1] == list@[at - 1]@);
    }
    list.insert(at, target);
    assert(views(list@) =~= before.insert(at as int, placed));
}

/// The targets of an agent list that has been read: the agents of the tab, by
/// pane id.
pub fn targets_read(agents: &Json, tab_id: Option<&str>, exclude_pane: Option<&str>) -> (out: Vec<
    Target,
>)
    ensures
        views(out@) == targets_in(
            Some(agents@),
            text::text_view(tab_id),
            text::text_view(exclude_pane),
        ),
{
    let mut out: Vec<Target> = Vec::new();
    assert(views(out@) =~= Seq::<TargetView>::empty());
    let tab = match tab_id {
        Some(t) => t,
        None => {
            return out;
        },
    };
    if tab.unicode_len() == 0 {
        return out;
    }
    let list = match agents.result_array("agents") {
        Some(items) => items,
        None => {
            return out;
        },
    };
    let ghost all = json::trees(list@);
    let ghost exclude = text::text_view(exclude_pane);
    for i in 0..list.len()
        invariant
            all == json::trees(list@),
            exclude == text::text_view(exclude_pane),
            views(out@) == in_order(candidates(all.take(i as int), tab@, exclude)),
    {
        proof {
            assert(all.take(i + 1).drop_last() =~= all.take(i as int));
            assert(all[i as int] == list@[i as int]@);
        }
        if let Some(target) = target_of(&list[i], tab, exclude_pane) {
            let ghost found = candidates(all.take(i as int), tab@, exclude);
            assert(found.push(target@).drop_last() =~= found);
            place(&mut out, target);
        }
    }
    assert(all.take(all.len() as int) =~= all);
    out
}

/// The agents of `tab_id`, ordered by pane id, from an answer to `agent.list`.
///
/// Without a tab there are no targets: a binary started by hand must not be able
/// to drop text somewhere. `exclude_pane` takes the pane itself out. An answer
/// that cannot be read gives no target.
pub fn targets(agents_json: &str, tab_id: Option<&str>, exclude_pane: Option<&str>) -> (out: Vec<
    Target,
>)
    ensures
        views(out@) == targets_in(
            json::parsed(agents_json@),
            text::text_view(tab_id),
            text::text_view(exclude_pane),
        ),
{
    match json::parse(agents_json) {
        Some(agents) => targets_read(&agents, tab_id, exclude_pane),
        None => {
            let out: Vec<Target> = Vec::new();
            assert(views(out@) =~= Seq::<TargetView>::empty());
            out
        },
    }
}

/// The live tabs of a tab list that has been read.
pub fn live_tabs_read(tabs: &Json) -> (ids: Vec<String>)
    ensures
        text::strings(ids@) == live_in(Some(tabs@)),
{
    let mut ids: Vec<String> = Vec::new();
    assert(text::strings(ids@) =~= Seq::<Seq<char>>::empty());
    let list = match tabs.result_array("tabs") {
        Some(items) => items,
        None => {
            return ids;
        },
    };
    let ghost all = json::trees(list@);
    for i in 0..list.len()
        invariant
            all == json::trees(list@),
            text::strings(ids@) == tab_ids(all.take(i as int)),
    {
        proof {
            assert(all.take(i + 1).drop_last() =~= all.take(i as int));
            assert(all[i as int] == list@[i as int]@);
        }
        if let Some(id) = str_field(&list[i], "tab_id") {
            let ghost before = text::strings(ids@);
            ids.push(id.to_owned());
            assert(text::strings(ids@) =~= before.push(id@));
        }
    }
    assert(all.take(all.len() as int) =~= all);
    ids
}

/// The live tabs of an answer to `tab.list`; none where it cannot be read, which
/// says nothing about the tabs.
pub fn live_tab_ids(tabs_json: &str) -> (ids: Vec<String>)
    ensures
        text::strings(ids@) == live_in(json::parsed(tabs_json@)),
{
    match json::parse(tabs_json) {
        Some(tabs) => live_tabs_read(&tabs),
        None => {
            let ids: Vec<String> = Vec::new();
            assert(text::strings(ids@) =~= Seq::<Seq<char>>::empty());
            ids
        },
    }
}

/// Every agent of the tab is a target: each one listed there with a pane of its
/// own that is not the one to leave out, under the first of the names it has.
pub proof fn every_agent_of_the_tab_is_a_target(
    reply: Option<JsonView>,
    tab_id: Option<Seq<char>>,
    exclude: Option<Seq<char>>,
    i: int,
)
    requires
        tab_id is Some && tab_id->0.len() > 0,
        json::result_list(reply, "agents"@) matches Some(list) && 0 <= i < list.len()
            && list[i].field("tab_id"@) == tab_id && (list[i].field("pane_id"@) matches Some(id)
            && id.len() > 0 && exclude != Some(id)),
    ensures
        exists|t: TargetView| #[trigger]
            targets_in(reply, tab_id, exclude).contains(t) && Some(t.pane_id)
                == json::result_list(reply, "agents"@)->0[i].field("pane_id"@) && t.agent
                == name_of(json::result_list(reply, "agents"@)->0[i]),
{
    let list = json::result_list(reply, "agents"@)->0;
    let found = candidates(list, tab_id->0, exclude);
    let t = TargetView {
        pane_id: list[i].field("pane_id"@)->0,
        agent: name_of(list[i]),
    };
    assert(candidate(list[i], tab_id->0, exclude) == Some(t));
    lemma_candidate_kept(list, tab_id->0, exclude, i);
    ordering_sorts(found);
    found.to_multiset_ensures();
    in_order(found).to_multiset_ensures();
    assert(found.to_multiset().count(t) > 0);
    assert(in_order(found).contains(t));
    assert(targets_in(reply, tab_id, exclude).contains(t));
}

proof fn lemma_candidate_kept(
    list: Seq<JsonView>,
    tab_id: Seq<char>,
    exclude: Option<Seq<char>>,
    i: int,
)
    requires
        0 <= i < list.len(),
        candidate(list[i], tab_id, exclude) is Some,
    ensures
        candidates(list, tab_id, exclude).contains(candidate(list[i], tab_id, exclude)->0),
    decreases list.len(),
{
    let init = list.drop_last();
    let before = candidates(init, tab_id, exclude);
    let whole = candidates(list, tab_id, exclude);
    let t = candidate(list[i], tab_id, exclude)->0;
    if i < init.len() {
        lemma_candidate_kept(init, tab_id, exclude, i);
        assert(init[i] == list[i]);
        let k = choose|k: int| 0 <= k < before.len() && before[k] == t;
        assert(whole[k] == t);
    } else {
        assert(whole[before.len() as int] == t);
    }
}

/// There are no more targets than agents listed, and none without a tab.
pub proof fn targets_are_no_more_than_the_agents(
    reply: Option<JsonView>,
    tab_id: Option<Seq<char>>,
    exclude: Option<Seq<char>>,
)
    ensures
        tab_id is None || tab_id->0.len() == 0 ==> targets_in(reply, tab_id, exclude).len() == 0,
        json::result_list(reply, "agents"@) is None ==> targets_in(reply, tab_id, exclude).len()
            == 0,
        json::result_list(reply, "agents"@) matches Some(list) ==> targets_in(
            reply,
            tab_id,
            exclude,
        ).len() <= list.len(),
{
    if let Some(list) = json::result_list(reply, "agents"@) {
        if tab_id is Some {
            ordering_sorts(candidates(list, tab_id->0, exclude));
            lemma_candidates_len(list, tab_id->0, exclude);
        }
    }
}

proof fn lemma_candidates_len(list: Seq<JsonView>, tab_id: Seq<char>, exclude: Option<Seq<char>>)
    ensures
        candidates(list, tab_id, exclude).len() <= list.len(),
    decreases list.len(),
{
    if list.len() > 0 {
        lemma_candidates_len(list.drop_last(), tab_id, exclude);
    }
}

/// An agent goes by the first of its names that is there and not empty: that of
/// the agent, the one to display, its own; and by a stand-in where it has none.
pub proof fn agents_go_by_their_first_name(agent: JsonView)
    ensures
        ({
            let given = |key: Seq<char>| agent.field(key) matches Some(s) && s.len() > 0;
            &&& given("agent"@) ==> Some(name_of(agent)) == agent.field("agent"@)
            &&& !given("agent"@) && given("display_agent"@) ==> Some(name_of(agent)) == agent.field(
                "display_agent"@,
            )
            &&& !given("agent"@) && !given("display_agent"@) && given("name"@) ==> Some(
                name_of(agent),
            ) == agent.field("name"@)
            &&& !given("agent"@) && !given("display_agent"@) && !given("name"@) ==> name_of(agent)
                == "agent"@
        }),
{
}

/// A label is shown in full wherever it fits. Where it does not, it is as much of
/// the name as fits.
pub proof fn label_keeps_all_that_fits(target: TargetView, width: int, n: int)
    requires
        width >= 0,
    ensures
        width::total(width::widths(full_label(target))) <= width ==> label_of(target, width)
            == full_label(target),
        width::total(width::widths(full_label(target))) > width ==> {
            let kept = label_of(target, width).len() as int;
            &&& label_of(target, width) == short_label(target).take(kept)
            &&& kept < n <= short_label(target).len() ==> width::total(
                width::widths(short_label(target).take(n)),
            ) > width
        },
{
    let short = short_label(target);
    let ws = width::widths(short);
    width::fit_is_the_longest_prefix(ws, width);
    if 0 <= n <= short.len() {
        assert(width::widths(short.take(n)) =~= ws.take(n));
    }
}

/// A full label is an arrow, the name of the agent, a dot, and what its pane id
/// ends in.
pub proof fn full_label_names_agent_and_pane(target: TargetView)
    ensures
        ({
            let label = full_label(target);
            let n = target.agent.len() as int;
            &&& label.len() == 3 + n + suffix_of(target.pane_id).len()
            &&& label[0] == '→' && label[1] == ' '
            &&& label.subrange(2, 2 + n) == target.agent
            &&& label[2 + n] == '·'
            &&& label.skip(3 + n) == suffix_of(target.pane_id)
            &&& short_label(target) == label.take(2 + n)
            &&& target.pane_id.skip(suffix_start(target.pane_id)) == suffix_of(target.pane_id)
        }),
{
    reveal_strlit("→ ");
    reveal_strlit("·");
    let label = full_label(target);
    let n = target.agent.len() as int;
    assert(label.subrange(2, 2 + n) =~= target.agent);
    assert(label.skip(3 + n) =~= suffix_of(target.pane_id));
    assert(short_label(target) =~= label.take(2 + n));
}

/// The live tabs are those that the answer lists with an id, and no others.
pub proof fn live_tabs_are_those_listed(reply: Option<JsonView>, id: Seq<char>)
    ensures
        live_in(reply).contains(id) <==> id.len() > 0 && (json::result_list(
            reply,
            "tabs"@,
        ) matches Some(list) && exists|i: int|
            0 <= i < list.len() && (#[trigger] list[i]).field("tab_id"@) == Some(id)),
{
    if let Some(list) = json::result_list(reply, "tabs"@) {
        lemma_tab_ids(list, id);
    }
}

proof fn lemma_tab_ids(list: Seq<JsonView>, id: Seq<char>)
    ensures
        tab_ids(list).contains(id) <==> id.len() > 0 && exists|i: int|
            0 <= i < list.len() && (#[trigger] list[i]).field("tab_id"@) == Some(id),
    decreases list.len(),
{
    if list.len() > 0 {
        let init = list.drop_last();
        let before = tab_ids(init);
        let whole = tab_ids(list);
        let last = list.len() - 1;
        lemma_tab_ids(init, id);
        if whole.contains(id) {
            let k = choose|k: int| 0 <= k < whole.len() && whole[k] == id;
            if k < before.len() {
                assert(before[k] == id);
                let i = choose|i: int|
                    0 <= i < init.len() && (#[trigger] init[i]).field("tab_id"@) == Some(id);
                assert(list[i].field("tab_id"@) == Some(id));
            } else {
                assert(list[last].field("tab_id"@) == Some(id));
            }
        }
        if id.len() > 0 && exists|i: int|
            0 <= i < list.len() && (#[trigger] list[i]).field("tab_id"@) == Some(id) {
            let i = choose|i: int|
                0 <= i < list.len() && (#[trigger] list[i]).field("tab_id"@) == Some(id);
            if i < last {
                assert(init[i].field("tab_id"@) == Some(id));
                let k = choose|k: int| 0 <= k < before.len() && before[k] == id;
                assert(whole[k] == id);
            } else {
                assert(whole[before.len() as int] == id);
            }
        }
    }
}

} // verus!
