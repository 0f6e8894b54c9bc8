//! Display columns.
//!
//! A terminal counts columns, not characters: an emoji or an ideogram takes two,
//! a combining mark none. Everything that wraps, trims or places text first
//! measures it, character by character, and then works on the list of widths.
use vstd::prelude::*;
use vstd::utf8::*;

verus! {

/// What `UnicodeWidthChar::width` of the `unicode-width` crate returns: the
/// columns one character takes on its own, or nothing for a control character.
pub uninterp spec fn char_width(c: char) -> Option<usize>;

/// The columns one character takes, a control character taking none.
pub open spec fn columns_of(c: char) -> usize {
    match char_width(c) {
        Some(w) => w,
        None => 0,
    }
}

/// The columns of each character of a text.
pub open spec fn widths(text: Seq<char>) -> Seq<usize> {
    text.map_values(|c: char| columns_of(c))
}

/// The sum of a list of widths.
pub open spec fn total(ws: Seq<usize>) -> int
    decreases ws.len(),
{
    if ws.len() == 0 {
        0
    } else {
        total(ws.drop_last()) + ws.last()
    }
}

/// How far the widths can be taken, beyond the first `n`, within `limit` columns.
pub open spec fn fit_from(ws: Seq<usize>, n: int, limit: int) -> int
    decreases ws.len() - n,
{
    if 0 <= n < ws.len() && total(ws.take(n + 1)) <= limit {
        fit_from(ws, n + 1, limit)
    } else {
        n
    }
}

/// How many of the widths, from the first on, fit into `limit` columns.
pub open spec fn fit(ws: Seq<usize>, limit: int) -> int {
    fit_from(ws, 0, limit)
}

/// A character of the visible ASCII range, space included.
pub open spec fn printable(c: char) -> bool {
    ' ' <= c <= '~'
}

pub proof fn lemma_total_take(ws: Seq<usize>, n: int)
    requires
        0 <= n < ws.len(),
    ensures
        total(ws.take(n + 1)) == total(ws.take(n)) + ws[n],
{
    assert(ws.take(n + 1).drop_last() =~= ws.take(n));
}

pub proof fn lemma_total_concat(a: Seq<usize>, b: Seq<usize>)
    ensures
        total(a + b) == total(a) + total(b),
    decreases b.len(),
{
    if b.len() == 0 {
        assert(a + b =~= a);
    } else {
        assert((a + b).drop_last() =~= a + b.drop_last());
        lemma_total_concat(a, b.drop_last());
    }
}

pub proof fn lemma_total_nonnegative(ws: Seq<usize>)
    ensures
        total(ws) >= 0,
    decreases ws.len(),
{
    if ws.len() > 0 {
        lemma_total_nonnegative(ws.drop_last());
    }
}

/// A longer prefix is at least as wide.
pub proof fn lemma_total_monotonic(ws: Seq<usize>, a: int, b: int)
    requires
        0 <= a <= b <= ws.len(),
    ensures
        0 <= total(ws.take(a)) <= total(ws.take(b)),
    decreases b,
{
    lemma_total_nonnegative(ws.take(a));
    if a < b {
        lemma_total_monotonic(ws, a, b - 1);
        lemma_total_take(ws, b - 1);
    }
}

/// Only as many characters are kept as fit, and never fewer than could be.
pub proof fn fit_is_the_longest_prefix(ws: Seq<usize>, limit: int)
    requires
        limit >= 0,
    ensures
        0 <= fit(ws, limit) <= ws.len(),
        total(ws.take(fit(ws, limit))) <= limit,
        forall|n: int| fit(ws, limit) < n <= ws.len() ==> total(#[trigger] ws.take(n)) > limit,
{
    assert(total(ws.take(0)) == 0);
    lemma_fit_from(ws, 0, limit);
    let f = fit(ws, limit);
    assert forall|n: int| f < n <= ws.len() implies total(#[trigger] ws.take(n)) > limit by {
        lemma_total_monotonic(ws, f + 1, n);
    }
}

proof fn lemma_fit_from(ws: Seq<usize>, n: int, limit: int)
    requires
        0 <= n <= ws.len(),
        total(ws.take(n)) <= limit,
    ensures
        n <= fit_from(ws, n, limit) <= ws.len(),
        total(ws.take(fit_from(ws, n, limit))) <= limit,
        fit_from(ws, n, limit) < ws.len() ==> total(ws.take(fit_from(ws, n, limit) + 1)) > limit,
    decreases ws.len() - n,
{
    if n < ws.len() && total(ws.take(n + 1)) <= limit {
        lemma_fit_from(ws, n + 1, limit);
    }
}

/// What fits is known from its two bounds.
pub proof fn lemma_fit_is(ws: Seq<usize>, limit: int, n: int)
    requires
        limit >= 0,
        0 <= n <= ws.len(),
        total(ws.take(n)) <= limit,
        n < ws.len() ==> total(ws.take(n + 1)) > limit,
    ensures
        fit(ws, limit) == n,
{
    fit_is_the_longest_prefix(ws, limit);
    let f = fit(ws, limit);
    if n < f {
        lemma_total_monotonic(ws, n + 1, f);
    }
}

/// One more character adds the length of its own encoding.
proof fn lemma_bytes_push(s: Seq<char>, c: char)
    ensures
        encode_utf8(s.push(c)).len() == encode_utf8(s).len() + encode_scalar(c as u32).len(),
    decreases s.len(),
{
    if s.len() == 0 {
        assert(s.push(c).drop_first() =~= s);
        assert(encode_utf8(s.push(c)) == encode_scalar(c as u32) + encode_utf8(s));
    } else {
        assert(s.push(c).drop_first() =~= s.drop_first().push(c));
        lemma_bytes_push(s.drop_first(), c);
    }
}

/// `UnicodeWidthChar::width` of the `unicode-width` crate. Beside naming its
/// result, the contract claims what its lookup shows: the visible ASCII
/// characters take one column, the control characters (those below the space,
/// and from U+007F up to but excluding U+00A0) have no width, no character takes
/// more than three columns, and none below U+0800 more than two.
#[verifier::external_body]
fn width_of(c: char) -> (w: Option<usize>)
    ensures
        w == char_width(c),
        printable(c) ==> w == Some(1usize),
        (c as u32) < 0x20 || 0x7f <= (c as u32) < 0xa0 ==> w == None::<usize>,
        w is Some ==> w->0 <= 3,
        w is Some && (c as u32) < 0x800 ==> w->0 <= 2,
{
    unicode_width::UnicodeWidthChar::width(c)
}

/// The columns of one character, none for a control character. No character
/// takes more columns than bytes.
fn columns_for(c: char) -> (w: usize)
    ensures
        w == columns_of(c),
        printable(c) ==> w == 1,
        w <= encode_scalar(c as u32).len(),
{
    proof {
        let v = c as u32;
        assert(v < 0x80 ==> printable(c) || v < 0x20 || v == 0x7f);
    }
    match width_of(c) {
        Some(w) => w,
        None => 0,
    }
}

/// The columns of each character of `s`, in order.
pub fn measure(s: &str) -> (ws: Vec<usize>)
    ensures
        ws@ == widths(s@),
        total(ws@) <= usize::MAX,
        forall|i: int| 0 <= i < ws@.len() && printable(s@[i]) ==> #[trigger] ws@[i] == 1,
{
    let mut ws: Vec<usize> = Vec::new();
    // No text takes more columns than bytes, and the bytes can be counted.
    let _bytes: usize = s.as_bytes().len();
    for c in it: s.chars()
        invariant
            it.seq() == s@,
            ws@ == widths(s@.take(it.index())),
            total(ws@) <= encode_utf8(s@.take(it.index())).len(),
            forall|i: int| 0 <= i < ws@.len() && printable(s@[i]) ==> #[trigger] ws@[i] == 1,
    {
        let ghost n = it.index();
        let ghost prior = ws@;
        ws.push(columns_for(c));
        proof {
            assert(s@.take(n + 1) =~= s@.take(n).push(c));
            lemma_bytes_push(s@.take(n), c);
            assert(ws@ =~= widths(s@.take(n + 1)));
            assert(ws@.drop_last() =~= prior);
        }
    }
    proof {
        assert(s@.take(s@.len() as int) =~= s@);
    }
    ws
}

/// The sum of a list of widths.
pub fn sum(ws: &[usize]) -> (n: usize)
    requires
        total(ws@) <= usize::MAX,
    ensures
        n == total(ws@),
{
    let mut n: usize = 0;
    for i in 0..ws.len()
        invariant
            total(ws@) <= usize::MAX,
            n == total(ws@.take(i as int)),
    {
        proof {
            lemma_total_take(ws@, i as int);
            lemma_total_monotonic(ws@, i + 1, ws@.len() as int);
            assert(ws@.take(ws@.len() as int) =~= ws@);
        }
        n = n + ws[i];
    }
    assert(ws@.take(ws@.len() as int) =~= ws@);
    n
}

/// Characters of one column each take as many columns as there are of them.
proof fn lemma_total_ones(ws: Seq<usize>)
    requires
        forall|i: int| 0 <= i < ws.len() ==> #[trigger] ws[i] == 1,
    ensures
        total(ws) == ws.len(),
    decreases ws.len(),
{
    if ws.len() > 0 {
        let init = ws.drop_last();
        assert forall|i: int| 0 <= i < init.len() implies #[trigger] init[i] == 1 by {
            assert(init[i] == ws[i]);
        }
        lemma_total_ones(init);
        assert(ws[ws.len() - 1] == 1);
    }
}

/// The columns a text takes: one for each character of a visible ASCII text.
pub fn columns(s: &str) -> (n: usize)
    ensures
        n == total(widths(s@)),
        (forall|i: int| 0 <= i < s@.len() ==> printable(#[trigger] s@[i])) ==> n == s@.len(),
{
    let ws = measure(s);
    proof {
        if forall|i: int| 0 <= i < s@.len() ==> printable(#[trigger] s@[i]) {
            assert forall|i: int| 0 <= i < ws@.len() implies #[trigger] ws@[i] == 1 by {
                assert(printable(s@[i]));
            }
            lemma_total_ones(ws@);
        }
    }
    sum(ws.as_slice())
}

/// How many widths, from the first on, fit into `limit` columns.
pub fn fitting(ws: &[usize], limit: usize) -> (n: usize)
    ensures
        n == fit(ws@, limit as int),
        n <= ws@.len(),
{
    let mut n: usize = 0;
    let mut used: usize = 0;
    while n < ws.len() && ws[n] <= limit - used
        invariant
            n <= ws@.len(),
            used == total(ws@.take(n as int)),
            used <= limit,
            fit(ws@, limit as int) == fit_from(ws@, n as int, limit as int),
        decreases ws@.len() - n,
    {
        proof {
            lemma_total_take(ws@, n as int);
        }
        used = used + ws[n];
        n = n + 1;
    }
    proof {
        if n < ws@.len() {
            lemma_total_take(ws@, n as int);
        }
    }
    n
}

/// The columns of a text are those of its characters one by one: what the crate
/// that knows them gives, and none for a control character.
pub proof fn texts_are_measured_by_character(text: Seq<char>, c: char)
    ensures
        widths(text).len() == text.len(),
        total(widths(Seq::<char>::empty())) == 0,
        total(widths(text.push(c))) == total(widths(text)) + (match char_width(c) {
            Some(w) => w as int,
            None => 0,
        }),
{
    assert(widths(text.push(c)).drop_last() =~= widths(text));
}

} // verus!
