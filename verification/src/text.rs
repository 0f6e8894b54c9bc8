//! Text as sequences of characters: lines, line breaks, and the small string
//! operations the other modules share.
use vstd::prelude::*;

verus! {

/// `String::push` appends the given character at the end of the string.
pub assume_specification[ String::push ](s: &mut String, c: char)
    ensures
        final(s)@ == old(s)@.push(c),
;

/// The characters held by each string of a list.
pub open spec fn strings(list: Seq<String>) -> Seq<Seq<char>> {
    list.map_values(|s: String| s@)
}

/// Every line, each one followed by a line break.
pub open spec fn terminated(lines: Seq<Seq<char>>) -> Seq<char>
    decreases lines.len(),
{
    if lines.len() == 0 {
        Seq::empty()
    } else {
        terminated(lines.drop_last()) + lines.last().push('\n')
    }
}

/// The lines with one line break between each two of them.
pub open spec fn join(lines: Seq<Seq<char>>) -> Seq<char> {
    terminated(lines).drop_last()
}

/// The pieces of `text` between its line breaks: always at least one.
pub open spec fn split(text: Seq<char>) -> Seq<Seq<char>>
    decreases text.len(),
{
    if text.len() == 0 {
        seq![Seq::empty()]
    } else {
        let before = split(text.drop_last());
        if text.last() == '\n' {
            before.push(Seq::empty())
        } else {
            before.drop_last().push(before.last().push(text.last()))
        }
    }
}

/// No line holds a line break.
pub open spec fn unbroken(lines: Seq<Seq<char>>) -> bool {
    forall|i: int| 0 <= i < lines.len() ==> !(#[trigger] lines[i]).contains('\n')
}

/// `text` with every `\r\n` and every remaining `\r` turned into `\n`.
pub open spec fn normalised(text: Seq<char>) -> Seq<char>
    decreases text.len(),
{
    if text.len() == 0 {
        Seq::empty()
    } else {
        let init = text.drop_last();
        if text.last() == '\r' {
            normalised(init).push('\n')
        } else if text.last() == '\n' && init.len() > 0 && init.last() == '\r' {
            // The preceding `\r` already stands for this line break.
            normalised(init)
        } else {
            normalised(init).push(text.last())
        }
    }
}

pub proof fn lemma_terminated_concat(a: Seq<Seq<char>>, b: Seq<Seq<char>>)
    ensures
        terminated(a + b) == terminated(a) + terminated(b),
    decreases b.len(),
{
    if b.len() == 0 {
        assert(a + b =~= a);
        assert(terminated(a) + terminated(b) =~= terminated(a));
    } else {
        assert((a + b).drop_last() =~= a + b.drop_last());
        lemma_terminated_concat(a, b.drop_last());
        assert(terminated(a + b) =~= terminated(a) + terminated(b));
    }
}

pub proof fn lemma_terminated_one(line: Seq<char>)
    ensures
        terminated(seq![line]) == line.push('\n'),
{
    reveal_with_fuel(terminated, 2);
    assert(seq![line].drop_last() =~= Seq::<Seq<char>>::empty());
    assert(terminated(seq![line]) =~= line.push('\n'));
}

/// The line at `row` inside the whole, between what precedes and follows it.
pub proof fn lemma_terminated_around(lines: Seq<Seq<char>>, row: int)
    requires
        0 <= row < lines.len(),
    ensures
        terminated(lines) == terminated(lines.take(row)) + lines[row].push('\n') + terminated(
            lines.skip(row + 1),
        ),
{
    let one = seq![lines[row]];
    assert(lines =~= lines.take(row) + one + lines.skip(row + 1));
    lemma_terminated_concat(lines.take(row) + one, lines.skip(row + 1));
    lemma_terminated_concat(lines.take(row), one);
    lemma_terminated_one(lines[row]);
}

pub proof fn lemma_split(text: Seq<char>)
    ensures
        split(text).len() >= 1,
        unbroken(split(text)),
        terminated(split(text)) == text.push('\n'),
    decreases text.len(),
{
    if text.len() == 0 {
        lemma_terminated_one(Seq::empty());
        assert(terminated(split(text)) =~= text.push('\n'));
    } else {
        let init = text.drop_last();
        lemma_split(init);
        let before = split(init);
        let c = text.last();
        if c == '\n' {
            assert(before.push(Seq::empty()).drop_last() =~= before);
            assert(terminated(split(text)) =~= text.push('\n'));
        } else {
            let grown = before.last().push(c);
            let after = before.drop_last().push(grown);
            assert(after.drop_last() =~= before.drop_last());
            assert(terminated(after) =~= terminated(before.drop_last()) + grown.push('\n'));
            assert(terminated(before) =~= (terminated(before.drop_last()) + before.last()).push(
                '\n',
            ));
            assert(init.push('\n').drop_last() =~= init);
            assert(terminated(before.drop_last()) + before.last() =~= terminated(
                before,
            ).drop_last());
            assert(text =~= init.push(c));
            assert(terminated(before.drop_last()) + grown.push('\n') =~= (terminated(
                before.drop_last(),
            ) + before.last()).push(c).push('\n'));
            assert forall|i: int| 0 <= i < after.len() implies !(#[trigger] after[i]).contains(
                '\n',
            ) by {
                if i < before.len() - 1 {
                    assert(after[i] == before[i]);
                } else {
                    assert(!before[i].contains('\n'));
                    assert forall|k: int| 0 <= k < grown.len() implies grown[k] != '\n' by {
                        if k < before.last().len() {
                            assert(before[i][k] == grown[k]);
                        }
                    }
                }
            }
        }
    }
}

/// Joining what was split gives the text back.
pub proof fn lemma_join_of_split(text: Seq<char>)
    ensures
        join(split(text)) == text,
{
    lemma_split(text);
    assert(text.push('\n').drop_last() =~= text);
}

/// A list of unbroken lines is known by its text alone.
pub proof fn lemma_lines_unique(a: Seq<Seq<char>>, b: Seq<Seq<char>>)
    requires
        unbroken(a),
        unbroken(b),
        terminated(a) == terminated(b),
    ensures
        a == b,
    decreases a.len(),
{
    if a.len() == 0 {
        if b.len() > 0 {
            assert(terminated(b).len() > 0);
        }
        assert(a =~= b);
    } else if b.len() == 0 {
        assert(terminated(a).len() > 0);
        assert(false);
    } else {
        lemma_terminated_around(a, 0);
        lemma_terminated_around(b, 0);
        assert(a.take(0) =~= Seq::empty());
        assert(b.take(0) =~= Seq::empty());
        let ta = terminated(a);
        let x = a[0];
        let y = b[0];
        assert(ta =~= x.push('\n') + terminated(a.skip(1)));
        assert(ta =~= y.push('\n') + terminated(b.skip(1)));
        if x.len() < y.len() {
            assert(ta[x.len() as int] == '\n');
            assert(ta[x.len() as int] == y[x.len() as int]);
            assert(y.contains('\n'));
            assert(false);
        }
        if y.len() < x.len() {
            assert(ta[y.len() as int] == '\n');
            assert(ta[y.len() as int] == x[y.len() as int]);
            assert(x.contains('\n'));
            assert(false);
        }
        assert forall|k: int| 0 <= k < x.len() implies x[k] == y[k] by {
            assert(ta[k] == x[k]);
            assert(ta[k] == y[k]);
        }
        assert(x =~= y);
        assert(terminated(a.skip(1)) =~= ta.skip(x.len() as int + 1));
        assert(terminated(b.skip(1)) =~= ta.skip(x.len() as int + 1));
        assert forall|i: int| 0 <= i < a.skip(1).len() implies !(#[trigger] a.skip(1)[i]).contains(
            '\n',
        ) by {
            assert(a.skip(1)[i] == a[i + 1]);
        }
        assert forall|i: int| 0 <= i < b.skip(1).len() implies !(#[trigger] b.skip(1)[i]).contains(
            '\n',
        ) by {
            assert(b.skip(1)[i] == b[i + 1]);
        }
        lemma_lines_unique(a.skip(1), b.skip(1));
        assert forall|i: int| 0 <= i < a.len() implies a[i] == b[i] by {
            if i > 0 {
                assert(a[i] == a.skip(1)[i - 1]);
                assert(b[i] == b.skip(1)[i - 1]);
            }
        }
        assert(a.skip(1).len() == b.skip(1).len());
        assert(a =~= b);
    }
}

/// Splitting joined lines gives the lines back.
pub proof fn lemma_split_of_join(lines: Seq<Seq<char>>)
    requires
        lines.len() >= 1,
        unbroken(lines),
    ensures
        split(join(lines)) == lines,
{
    lemma_split(join(lines));
    assert(terminated(lines).last() == '\n');
    assert(join(lines).push('\n') =~= terminated(lines));
    lemma_lines_unique(split(join(lines)), lines);
}

/// What was normalised holds no carriage return.
pub proof fn normalised_has_no_return(text: Seq<char>)
    ensures
        !normalised(text).contains('\r'),
    decreases text.len(),
{
    if text.len() > 0 {
        let init = text.drop_last();
        normalised_has_no_return(init);
        let before = normalised(init);
        let after = normalised(text);
        assert forall|k: int| 0 <= k < after.len() implies after[k] != '\r' by {
            if k < before.len() {
                assert(before.contains(before[k]));
            }
        }
    }
}

/// A text without carriage returns is its own normal form.
pub proof fn normalised_keeps_plain_text(text: Seq<char>)
    requires
        !text.contains('\r'),
    ensures
        normalised(text) == text,
    decreases text.len(),
{
    if text.len() > 0 {
        let init = text.drop_last();
        assert forall|k: int| 0 <= k < init.len() implies init[k] != '\r' by {
            assert(text.contains(text[k]));
        }
        assert(text.contains(text.last()));
        normalised_keeps_plain_text(init);
        assert(init.push(text.last()) =~= text);
    }
}

/// The characters of a string, in order.
pub fn chars_of(s: &str) -> (chars: Vec<char>)
    ensures
        chars@ == s@,
{
    let mut chars: Vec<char> = Vec::new();
    for c in it: s.chars()
        invariant
            it.seq() == s@,
            chars@ == it.seq().take(it.index()),
    {
        chars.push(c);
    }
    assert(chars@ =~= s@);
    chars
}

/// Splits a text at its line breaks. The empty text is one empty line.
pub fn split_lines(text: &str) -> (lines: Vec<String>)
    ensures
        strings(lines@) == split(text@),
        lines@.len() >= 1,
        unbroken(strings(lines@)),
        join(strings(lines@)) == text@,
{
    let mut lines: Vec<String> = Vec::new();
    let mut current = String::new();
    assert(strings(lines@).push(current@) =~= split(text@.take(0)));
    for c in it: text.chars()
        invariant
            it.seq() == text@,
            strings(lines@).push(current@) == split(text@.take(it.index())),
    {
        proof {
            let i = it.index();
            assert(text@.take(i + 1).drop_last() =~= text@.take(i));
            assert(text@.take(i + 1).last() == c);
            let before = strings(lines@).push(current@);
            assert(before.drop_last() =~= strings(lines@));
            assert(before.last() == current@);
        }
        if c == '\n' {
            let ghost before = strings(lines@).push(current@);
            lines.push(current);
            current = String::new();
            assert(strings(lines@) =~= before);
        } else {
            current.push(c);
        }
    }
    let ghost before = strings(lines@).push(current@);
    lines.push(current);
    assert(strings(lines@) =~= before);
    assert(text@.take(text@.len() as int) =~= text@);
    proof {
        lemma_split(text@);
        lemma_join_of_split(text@);
    }
    lines
}

/// Joins lines with one line break between each two of them.
pub fn join_lines(lines: &[String]) -> (text: String)
    requires
        lines@.len() >= 1,
    ensures
        text@ == join(strings(lines@)),
{
    let mut text = String::new();
    let last = lines.len() - 1;
    for i in 0..last
        invariant
            last == lines@.len() - 1,
            text@ == terminated(strings(lines@).take(i as int)),
    {
        text.append(lines[i].as_str());
        text.push('\n');
        proof {
            let all = strings(lines@);
            assert(all.take(i + 1).drop_last() =~= all.take(i as int));
            assert(text@ =~= terminated(all.take(i as int)) + all[i as int].push('\n'));
        }
    }
    text.append(lines[last].as_str());
    proof {
        let all = strings(lines@);
        assert(all.drop_last() =~= all.take(last as int));
        assert(text@ =~= join(all));
    }
    text
}

/// Turns every `\r\n` and every remaining `\r` into `\n`.
pub fn normalise_breaks(text: &str) -> (out: String)
    ensures
        out@ == normalised(text@),
{
    let mut out = String::new();
    let mut after_return = false;
    for c in it: text.chars()
        invariant
            it.seq() == text@,
            out@ == normalised(text@.take(it.index())),
            after_return == (it.index() > 0 && text@[it.index() - 1] == '\r'),
    {
        proof {
            let i = it.index();
            assert(text@.take(i + 1).drop_last() =~= text@.take(i));
            assert(text@.take(i + 1).last() == c);
        }
        if c == '\r' {
            out.push('\n');
            after_return = true;
        } else {
            if !(c == '\n' && after_return) {
                out.push(c);
            }
            after_return = false;
        }
    }
    assert(text@.take(text@.len() as int) =~= text@);
    out
}

/// Whether two strings hold the same characters.
pub fn same(a: &str, b: &str) -> (equal: bool)
    ensures
        equal == (a@ == b@),
{
    let x = chars_of(a);
    let y = chars_of(b);
    if x.len() != y.len() {
        return false;
    }
    for i in 0..x.len()
        invariant
            x@ == a@,
            y@ == b@,
            x@.len() == y@.len(),
            forall|k: int| 0 <= k < i ==> x@[k] == y@[k],
    {
        if x[i] != y[i] {
            return false;
        }
    }
    assert(x@ =~= y@);
    true
}

/// An optional borrowed text as plain data.
pub open spec fn text_view(s: Option<&str>) -> Option<Seq<char>> {
    match s {
        Some(t) => Some(t@),
        None => None,
    }
}

/// An optional string as plain data.
pub open spec fn string_view(s: Option<String>) -> Option<Seq<char>> {
    match s {
        Some(t) => Some(t@),
        None => None,
    }
}

/// The order of two texts by their first difference, from the character `i` on;
/// a text comes after its own prefixes.
pub open spec fn precedes_from(a: Seq<char>, b: Seq<char>, i: int) -> bool
    decreases a.len() - i,
{
    if i >= b.len() {
        false
    } else if i >= a.len() {
        true
    } else if a[i] != b[i] {
        a[i] < b[i]
    } else {
        precedes_from(a, b, i + 1)
    }
}

/// Whether `a` comes before `b` in the order of characters, which is that of
/// their UTF-8 bytes.
pub open spec fn precedes(a: Seq<char>, b: Seq<char>) -> bool {
    precedes_from(a, b, 0)
}

proof fn lemma_precedes_irreflexive(a: Seq<char>, i: int)
    requires
        0 <= i,
    ensures
        !precedes_from(a, a, i),
    decreases a.len() - i,
{
    if i < a.len() {
        lemma_precedes_irreflexive(a, i + 1);
    }
}

proof fn lemma_precedes_total(a: Seq<char>, b: Seq<char>, i: int)
    requires
        0 <= i <= a.len(),
        i <= b.len(),
        a.take(i) == b.take(i),
    ensures
        precedes_from(a, b, i) || precedes_from(b, a, i) || a == b,
        !(precedes_from(a, b, i) && precedes_from(b, a, i)),
    decreases a.len() - i,
{
    if i >= a.len() || i >= b.len() {
        if a.len() == b.len() {
            assert(a.take(i) =~= a);
            assert(b.take(i) =~= b);
        }
    } else if a[i] == b[i] {
        assert(a.take(i + 1) =~= a.take(i).push(a[i]));
        assert(b.take(i + 1) =~= b.take(i).push(b[i]));
        lemma_precedes_total(a, b, i + 1);
    }
}

proof fn lemma_precedes_transitive(a: Seq<char>, b: Seq<char>, c: Seq<char>, i: int)
    requires
        0 <= i,
        precedes_from(a, b, i),
        precedes_from(b, c, i),
    ensures
        precedes_from(a, c, i),
    decreases a.len() - i,
{
    if i < a.len() && i < b.len() && i < c.len() && a[i] == b[i] && b[i] == c[i] {
        lemma_precedes_transitive(a, b, c, i + 1);
    }
}

/// The order of texts is a strict total order.
pub proof fn precedes_is_total(a: Seq<char>, b: Seq<char>)
    ensures
        !precedes(a, a),
        precedes(a, b) || precedes(b, a) || a == b,
        !(precedes(a, b) && precedes(b, a)),
{
    lemma_precedes_irreflexive(a, 0);
    assert(a.take(0) =~= b.take(0));
    lemma_precedes_total(a, b, 0);
}

/// The order of texts is transitive.
pub proof fn precedes_is_transitive(a: Seq<char>, b: Seq<char>, c: Seq<char>)
    requires
        precedes(a, b),
        precedes(b, c),
    ensures
        precedes(a, c),
{
    lemma_precedes_transitive(a, b, c, 0);
}

/// Whether `a` comes before `b`.
pub fn comes_before(a: &str, b: &str) -> (before: bool)
    ensures
        before == precedes(a@, b@),
{
    let x = chars_of(a);
    let y = chars_of(b);
    let mut i: usize = 0;
    while i < x.len() && i < y.len() && x[i] == y[i]
        invariant
            x@ == a@,
            y@ == b@,
            i <= x@.len(),
            i <= y@.len(),
            precedes(a@, b@) == precedes_from(a@, b@, i as int),
        decreases x@.len() - i,
    {
        i = i + 1;
    }
    if i >= y.len() {
        false
    } else if i >= x.len() {
        true
    } else {
        x[i] < y[i]
    }
}

/// The decimal digit of a value below ten.
pub open spec fn digit(n: int) -> char {
    (48 + n) as char
}

/// A number in decimal, without leading zeros.
pub open spec fn decimal(n: nat) -> Seq<char>
    decreases n,
{
    if n < 10 {
        seq![digit(n as int)]
    } else {
        decimal(n / 10).push(digit((n % 10) as int))
    }
}

fn digit_of(n: u64) -> (c: char)
    requires
        n < 10,
    ensures
        c == digit(n as int),
{
    if n == 0 {
        '0'
    } else if n == 1 {
        '1'
    } else if n == 2 {
        '2'
    } else if n == 3 {
        '3'
    } else if n == 4 {
        '4'
    } else if n == 5 {
        '5'
    } else if n == 6 {
        '6'
    } else if n == 7 {
        '7'
    } else if n == 8 {
        '8'
    } else {
        '9'
    }
}

/// Writes a number in decimal.
pub fn write_decimal(n: u64) -> (s: String)
    ensures
        s@ == decimal(n as nat),
    decreases n,
{
    if n < 10 {
        let mut s = String::new();
        s.push(digit_of(n));
        assert(s@ =~= decimal(n as nat));
        s
    } else {
        let mut s = write_decimal(n / 10);
        s.push(digit_of(n % 10));
        s
    }
}

/// A quotient rounded to the nearest integer, halves to the even one.
pub open spec fn half_even(n: int, d: int) -> int {
    let q = n / d;
    let r = n % d;
    if 2 * r > d || (2 * r == d && q % 2 == 1) {
        q + 1
    } else {
        q
    }
}

/// A decimal digit.
pub open spec fn is_digit(c: char) -> bool {
    '0' <= c <= '9'
}

/// The value of a run of decimal digits.
pub open spec fn digits_value(s: Seq<char>) -> int
    decreases s.len(),
{
    if s.len() == 0 {
        0
    } else {
        digits_value(s.drop_last()) * 10 + (s.last() as int - 48)
    }
}

/// Whether a text is made of decimal digits alone.
pub open spec fn all_digits(s: Seq<char>) -> bool {
    forall|i: int| 0 <= i < s.len() ==> is_digit(#[trigger] s[i])
}

/// A text without the plus sign it may begin with.
pub open spec fn after_plus(s: Seq<char>) -> Seq<char> {
    if s.len() > 0 && s[0] == '+' {
        s.skip(1)
    } else {
        s
    }
}

/// The number a text spells: decimal digits after an optional plus sign, small
/// enough for 64 bits.
pub open spec fn number_of(s: Seq<char>) -> Option<int> {
    let digits = after_plus(s);
    if digits.len() > 0 && all_digits(digits) && digits_value(digits) <= u64::MAX {
        Some(digits_value(digits))
    } else {
        None
    }
}

proof fn lemma_digits_value_grows(s: Seq<char>, n: int)
    requires
        0 <= n <= s.len(),
        all_digits(s),
    ensures
        0 <= digits_value(s.take(n)) <= digits_value(s),
    decreases s.len(),
{
    if n == s.len() {
        assert(s.take(n) =~= s);
        if s.len() > 0 {
            let init = s.drop_last();
            assert forall|i: int| 0 <= i < init.len() implies is_digit(#[trigger] init[i]) by {
                assert(init[i] == s[i]);
            }
            lemma_digits_value_grows(init, init.len() as int);
            assert(init.take(init.len() as int) =~= init);
            assert(is_digit(s[s.len() - 1]));
        }
    } else {
        let init = s.drop_last();
        assert forall|i: int| 0 <= i < init.len() implies is_digit(#[trigger] init[i]) by {
            assert(init[i] == s[i]);
        }
        lemma_digits_value_grows(init, n);
        assert(init.take(n) =~= s.take(n));
        assert(is_digit(s[s.len() - 1]));
    }
}

fn value_of_digit(c: char) -> (n: Option<u64>)
    ensures
        n is Some <==> is_digit(c),
        n matches Some(v) ==> v == c as int - 48 && v < 10,
{
    if c >= '0' && c <= '9' {
        Some((c as u64) - 48)
    } else {
        None
    }
}

/// Reads a number from a text; nothing where the text does not spell one.
pub fn read_number(s: &str) -> (n: Option<u64>)
    ensures
        n is Some <==> number_of(s@) is Some,
        n matches Some(v) ==> number_of(s@) == Some(v as int),
{
    let chars = chars_of(s);
    let from: usize = if chars.len() > 0 && chars[0] == '+' {
        1
    } else {
        0
    };
    let ghost digits = after_plus(s@);
    assert(digits =~= chars@.skip(from as int));
    if from == chars.len() {
        return None;
    }
    let mut n: u64 = 0;
    for i in from..chars.len()
        invariant
            from < chars@.len(),
            chars@ == s@,
            digits == chars@.skip(from as int),
            digits == after_plus(s@),
            forall|k: int| from <= k < i ==> is_digit(#[trigger] chars@[k]),
            n == digits_value(digits.take(i - from)),
    {
        let ghost k = i - from;
        assert(digits[k] == chars@[i as int]);
        assert(digits.take(k + 1).drop_last() =~= digits.take(k));
        match value_of_digit(chars[i]) {
            None => {
                return None;
            },
            Some(d) => {
                // Ten times what was read, plus this digit, where it still fits.
                if n > 1844674407370955161 || (n == 1844674407370955161 && d > 5) {
                    proof {
                        if all_digits(digits) {
                            lemma_digits_value_grows(digits, k + 1);
                        }
                    }
                    return None;
                }
                n = n * 10 + d;
            },
        }
    }
    proof {
        assert(digits.take(digits.len() as int) =~= digits);
        assert forall|j: int| 0 <= j < digits.len() implies is_digit(#[trigger] digits[j]) by {
            assert(digits[j] == chars@[from + j]);
        }
    }
    Some(n)
}

/// A number in decimal is a run of digits that spells it.
pub proof fn lemma_decimal_digits(n: nat)
    ensures
        decimal(n).len() > 0,
        all_digits(decimal(n)),
        digits_value(decimal(n)) == n,
    decreases n,
{
    reveal_with_fuel(digits_value, 2);
    if n < 10 {
        assert(decimal(n).drop_last() =~= Seq::empty());
    } else {
        lemma_decimal_digits(n / 10);
        let init = decimal(n / 10);
        assert(decimal(n).drop_last() =~= init);
        assert forall|i: int| 0 <= i < decimal(n).len() implies is_digit(
            #[trigger] decimal(n)[i],
        ) by {
            if i < init.len() {
                assert(decimal(n)[i] == init[i]);
            }
        }
    }
}

/// A number written in decimal is read back as it was.
pub proof fn number_survives_decimal(n: nat)
    requires
        n <= u64::MAX,
    ensures
        number_of(decimal(n)) == Some(n as int),
{
    lemma_decimal_digits(n);
    assert(is_digit(decimal(n)[0]));
}

/// One line joined is itself; one more line comes after a line break.
pub proof fn joining_puts_breaks_between_lines(lines: Seq<Seq<char>>, line: Seq<char>)
    ensures
        join(seq![line]) == line,
        lines.len() > 0 ==> join(lines.push(line)) == join(lines).push('\n') + line,
{
    lemma_terminated_one(line);
    assert(line.push('\n').drop_last() =~= line);
    if lines.len() > 0 {
        let more = lines.push(line);
        assert(more.drop_last() =~= lines);
        assert(terminated(lines).last() == '\n');
        assert(join(lines).push('\n') =~= terminated(lines));
        assert(join(more) =~= terminated(lines) + line);
    }
}

/// A text is normalised piece by piece, wherever it is not cut inside a `\r\n`: a
/// `\r\n` becomes one line break, so does a `\r` alone, and every other character
/// stays.
pub proof fn breaks_are_normalised_one_by_one(a: Seq<char>, b: Seq<char>, c: char)
    ensures
        !(a.len() > 0 && a.last() == '\r' && b.len() > 0 && b[0] == '\n') ==> normalised(a + b)
            == normalised(a) + normalised(b),
        normalised(seq!['\r', '\n']) == seq!['\n'],
        normalised(seq!['\r']) == seq!['\n'],
        c != '\r' ==> normalised(seq![c]) == seq![c],
    decreases b.len(),
{
    reveal_with_fuel(normalised, 3);
    assert(seq!['\r', '\n'].drop_last() =~= seq!['\r']);
    assert(seq!['\r'].drop_last() =~= Seq::<char>::empty());
    assert(seq![c].drop_last() =~= Seq::<char>::empty());
    assert(normalised(seq!['\r']) =~= seq!['\n']);
    assert(normalised(seq!['\r', '\n']) =~= seq!['\n']);
    assert(c != '\r' ==> normalised(seq![c]) =~= seq![c]);
    if !(a.len() > 0 && a.last() == '\r' && b.len() > 0 && b[0] == '\n') {
        if b.len() == 0 {
            assert(a + b =~= a);
            assert(normalised(a) + normalised(b) =~= normalised(a));
        } else {
            let init = b.drop_last();
            breaks_are_normalised_one_by_one(a, init, c);
            assert((a + b).drop_last() =~= a + init);
            if init.len() == 0 {
                assert(a + init =~= a);
                assert(b =~= seq![b[0]]);
            }
            assert(normalised(a + b) =~= normalised(a) + normalised(b));
        }
    }
}

/// Whether two texts agree up to `i`, and there the first one ends or holds the
/// lesser character.
pub open spec fn differ_at(a: Seq<char>, b: Seq<char>, i: int) -> bool {
    &&& 0 <= i < b.len() && i <= a.len()
    &&& forall|k: int| 0 <= k < i ==> #[trigger] a[k] == b[k]
    &&& i < a.len() ==> a[i] < b[i]
}

/// Texts are ordered by their first difference, and a text follows its prefixes.
pub proof fn texts_are_ordered_by_their_first_difference(a: Seq<char>, b: Seq<char>, i: int)
    requires
        differ_at(a, b, i),
    ensures
        precedes(a, b),
        !precedes(b, a),
{
    lemma_precedes_skip(a, b, i, i);
    precedes_is_total(a, b);
}

proof fn lemma_precedes_skip(a: Seq<char>, b: Seq<char>, i: int, k: int)
    requires
        differ_at(a, b, i),
        0 <= k <= i,
    ensures
        precedes_from(a, b, i - k),
    decreases k,
{
    if k > 0 {
        lemma_precedes_skip(a, b, i, k - 1);
        assert(a[i - k] == b[i - k]);
    }
}

/// A number in decimal has no leading zero but the one of zero itself, and one
/// more digit makes ten times the number.
pub proof fn decimals_are_positional(s: Seq<char>, n: nat, d: int)
    requires
        0 <= d < 10,
    ensures
        all_digits(decimal(n)),
        decimal(n)[0] == '0' ==> n == 0,
        all_digits(s) && s.len() > 0 && digits_value(s) * 10 + d <= u64::MAX ==> number_of(
            s.push(digit(d)),
        ) == Some(digits_value(s) * 10 + d),
        number_of(seq![digit(d)]) == Some(d),
    decreases n,
{
    reveal_with_fuel(digits_value, 2);
    lemma_decimal_digits(n);
    if n >= 10 {
        decimals_are_positional(s, n / 10, d);
        lemma_decimal_digits(n / 10);
        assert(decimal(n)[0] == decimal(n / 10)[0]);
    }
    assert(seq![digit(d)].drop_last() =~= Seq::<char>::empty());
    if all_digits(s) && s.len() > 0 {
        let more = s.push(digit(d));
        assert(more.drop_last() =~= s);
        assert(is_digit(s[0]));
        assert forall|i: int| 0 <= i < more.len() implies is_digit(#[trigger] more[i]) by {
            if i < s.len() {
                assert(more[i] == s[i]);
            }
        }
    }
}

/// A plus sign before the digits changes nothing; anything else but digits spells
/// no number.
pub proof fn only_digits_spell_a_number(s: Seq<char>)
    ensures
        s.len() == 0 ==> number_of(s) is None,
        s.len() > 0 && s[0] != '+' ==> number_of(seq!['+'] + s) == number_of(s),
        s.len() > 0 && s[0] != '+' && !all_digits(s) ==> number_of(s) is None,
{
    assert((seq!['+'] + s).skip(1) =~= s);
}

/// A rounded quotient is the nearest integer, and the even one of two that are
/// equally near.
pub proof fn rounding_is_to_the_nearest(n: int, d: int)
    requires
        d > 0,
    ensures
        ({
            let q = half_even(n, d);
            &&& -d <= 2 * (n - q * d) <= d
            &&& 2 * (n - q * d) == d || 2 * (n - q * d) == -d ==> q % 2 == 0
        }),
{
    let q = n / d;
    let r = n % d;
    vstd::arithmetic::div_mod::lemma_fundamental_div_mod(n, d);
    assert((q + 1) * d == q * d + d) by (nonlinear_arith);
    assert(q * d == d * q) by (nonlinear_arith);
}

} // verus!
