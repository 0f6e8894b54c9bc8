//! Copying to the clipboard of the host, by an OSC 52 sequence.
//!
//! The machine is typically reached over SSH, without a display: the sequence
//! travels to the terminal the text is going to be pasted on.
use vstd::arithmetic::div_mod::*;
use vstd::prelude::*;
use vstd::utf8::*;

verus! {

/// The most the server accepts for the clipboard. It counts the decoded bytes,
/// hence those of the text.
pub const MAX_CLIPBOARD_BYTES: usize = 192 * 1024;

/// Why nothing was copied.
#[derive(Debug, PartialEq, Eq)]
pub enum CopyError {
    /// The text is empty, which the server rejects.
    Empty,
    /// The text is too large: the server would drop it without a word.
    TooLarge { len: usize },
    /// Writing the sequence failed.
    Io(String),
}

/// What is to be written for a copy, and how many bytes of text it carries.
#[derive(Debug, PartialEq, Eq)]
pub struct Clip {
    pub sequence: String,
    pub len: usize,
}

/// The base64 symbol of a value below 64.
pub open spec fn symbol(n: int) -> char {
    if n < 26 {
        (65 + n) as char
    } else if n < 52 {
        (97 + (n - 26)) as char
    } else if n < 62 {
        (48 + (n - 52)) as char
    } else if n == 62 {
        '+'
    } else {
        '/'
    }
}

/// Three bytes as one number.
pub open spec fn group(b0: int, b1: int, b2: int) -> int {
    b0 * 0x10000 + b1 * 0x100 + b2
}

/// The `k`-th of the four six-bit parts of a group, from the highest.
pub open spec fn part(n: int, k: int) -> int {
    if k == 0 {
        n / 0x40000
    } else if k == 1 {
        (n / 0x1000) % 64
    } else if k == 2 {
        (n / 64) % 64
    } else {
        n % 64
    }
}

/// Bytes in standard base64: four symbols for each three bytes, the last four
/// padded.
pub open spec fn encoded(bytes: Seq<u8>) -> Seq<char>
    decreases bytes.len(),
{
    if bytes.len() == 0 {
        Seq::empty()
    } else if bytes.len() == 1 {
        let n = group(bytes[0] as int, 0, 0);
        seq![symbol(part(n, 0)), symbol(part(n, 1)), '=', '=']
    } else if bytes.len() == 2 {
        let n = group(bytes[0] as int, bytes[1] as int, 0);
        seq![symbol(part(n, 0)), symbol(part(n, 1)), symbol(part(n, 2)), '=']
    } else {
        let n = group(bytes[0] as int, bytes[1] as int, bytes[2] as int);
        seq![symbol(part(n, 0)), symbol(part(n, 1)), symbol(part(n, 2)), symbol(part(n, 3))]
            + encoded(bytes.skip(3))
    }
}

/// The value of a base64 symbol.
pub open spec fn symbol_value(c: char) -> int {
    if 'A' <= c <= 'Z' {
        c as int - 65
    } else if 'a' <= c <= 'z' {
        c as int - 97 + 26
    } else if '0' <= c <= '9' {
        c as int - 48 + 52
    } else if c == '+' {
        62
    } else {
        63
    }
}

/// The bytes that four symbols stand for, fewer where they are padded.
pub open spec fn decoded_group(s: Seq<char>) -> Seq<u8> {
    let n = symbol_value(s[0]) * 0x40000 + symbol_value(s[1]) * 0x1000 + if s[2] == '=' {
        0
    } else {
        symbol_value(s[2]) * 64
    } + if s[3] == '=' {
        0
    } else {
        symbol_value(s[3])
    };
    let b0 = (n / 0x10000) as u8;
    let b1 = ((n / 0x100) % 0x100) as u8;
    let b2 = (n % 0x100) as u8;
    if s[2] == '=' {
        seq![b0]
    } else if s[3] == '=' {
        seq![b0, b1]
    } else {
        seq![b0, b1, b2]
    }
}

/// The bytes that a base64 text stands for.
pub open spec fn decoded(s: Seq<char>) -> Seq<u8>
    decreases s.len(),
{
    if s.len() < 4 {
        Seq::empty()
    } else {
        decoded_group(s.take(4)) + decoded(s.skip(4))
    }
}

proof fn lemma_symbol(n: int)
    requires
        0 <= n < 64,
    ensures
        symbol_value(symbol(n)) == n,
        symbol(n) != '=',
{
}

proof fn lemma_group_parts(b0: u8, b1: u8, b2: u8)
    ensures
        ({
            let n = group(b0 as int, b1 as int, b2 as int);
            &&& 0 <= part(n, 0) < 64
            &&& 0 <= part(n, 1) < 64
            &&& 0 <= part(n, 2) < 64
            &&& 0 <= part(n, 3) < 64
            &&& part(n, 0) * 0x40000 + part(n, 1) * 0x1000 + part(n, 2) * 64 + part(n, 3) == n
            &&& n / 0x10000 == b0
            &&& (n / 0x100) % 0x100 == b1
            &&& n % 0x100 == b2
            &&& b2 == 0 ==> part(n, 3) == 0
            &&& b1 == 0 && b2 == 0 ==> part(n, 2) == 0
        }),
{
    let n = group(b0 as int, b1 as int, b2 as int);
    let high0 = b0 as int / 4;
    let low0 = b0 as int % 4;
    let high1 = b1 as int / 16;
    let low1 = b1 as int % 16;
    let high2 = b2 as int / 64;
    let low2 = b2 as int % 64;
    assert(b0 == 4 * high0 + low0);
    assert(b1 == 16 * high1 + low1);
    assert(b2 == 64 * high2 + low2);
    let mid = low0 * 16 + high1;
    let third = low1 * 4 + high2;
    lemma_fundamental_div_mod_converse(n, 0x40000, high0, mid * 0x1000 + third * 64 + low2);
    lemma_fundamental_div_mod_converse(n, 0x1000, high0 * 64 + mid, third * 64 + low2);
    lemma_fundamental_div_mod_converse(high0 * 64 + mid, 64, high0, mid);
    lemma_fundamental_div_mod_converse(n, 64, (high0 * 64 + mid) * 64 + third, low2);
    lemma_fundamental_div_mod_converse(
        (high0 * 64 + mid) * 64 + third,
        64,
        high0 * 64 + mid,
        third,
    );
    lemma_fundamental_div_mod_converse(n, 0x10000, b0 as int, b1 * 0x100 + b2);
    lemma_fundamental_div_mod_converse(n, 0x100, b0 * 0x100 + b1, b2 as int);
    lemma_fundamental_div_mod_converse(b0 * 0x100 + b1, 0x100, b0 as int, b1 as int);
}

/// Three bytes in four symbols, and fewer in padded ones, are decoded to
/// themselves.
proof fn lemma_group_decoded(b0: u8, b1: u8, b2: u8)
    ensures
        ({
            let n = group(b0 as int, b1 as int, b2 as int);
            let s = seq![
                symbol(part(n, 0)),
                symbol(part(n, 1)),
                symbol(part(n, 2)),
                symbol(part(n, 3)),
            ];
            &&& decoded_group(s) == seq![b0, b1, b2]
            &&& b2 == 0 ==> decoded_group(s.update(3, '=')) == seq![b0, b1]
            &&& b1 == 0 && b2 == 0 ==> decoded_group(s.update(3, '=').update(2, '=')) == seq![b0]
        }),
{
    let n = group(b0 as int, b1 as int, b2 as int);
    lemma_group_parts(b0, b1, b2);
    lemma_symbol(part(n, 0));
    lemma_symbol(part(n, 1));
    lemma_symbol(part(n, 2));
    lemma_symbol(part(n, 3));
}

proof fn lemma_decoded_more(s: Seq<char>, group: Seq<u8>, rest: Seq<char>)
    requires
        s.len() == 4,
        decoded_group(s) == group,
    ensures
        decoded(s + rest) == group + decoded(rest),
{
    assert((s + rest).take(4) =~= s);
    assert((s + rest).skip(4) =~= rest);
}

proof fn lemma_encoded_len(bytes: Seq<u8>)
    ensures
        encoded(bytes).len() == (bytes.len() + 2) / 3 * 4,
    decreases bytes.len(),
{
    if bytes.len() >= 3 {
        lemma_encoded_len(bytes.skip(3));
    }
}

/// The first four symbols of an encoding, and the bytes they stand for.
proof fn lemma_encoded_head(bytes: Seq<u8>) -> (s: Seq<char>)
    requires
        bytes.len() > 0,
    ensures
        s.len() == 4,
        bytes.len() < 3 ==> encoded(bytes) == s && decoded_group(s) == bytes,
        bytes.len() >= 3 ==> encoded(bytes) == s + encoded(bytes.skip(3)) && decoded_group(s)
            == bytes.take(3),
{
    let b1 = if bytes.len() > 1 {
        bytes[1]
    } else {
        0u8
    };
    let b2 = if bytes.len() > 2 {
        bytes[2]
    } else {
        0u8
    };
    let n = group(bytes[0] as int, b1 as int, b2 as int);
    let s = seq![symbol(part(n, 0)), symbol(part(n, 1)), symbol(part(n, 2)), symbol(part(n, 3))];
    lemma_group_decoded(bytes[0], b1, b2);
    if bytes.len() == 1 {
        let t = s.update(3, '=').update(2, '=');
        assert(encoded(bytes) =~= t);
        assert(seq![bytes[0]] =~= bytes);
        t
    } else if bytes.len() == 2 {
        let t = s.update(3, '=');
        assert(encoded(bytes) =~= t);
        assert(seq![bytes[0], b1] =~= bytes);
        t
    } else {
        assert(seq![bytes[0], b1, b2] =~= bytes.take(3));
        s
    }
}

/// What was encoded is decoded to the same bytes.
pub proof fn encoding_is_reversible(bytes: Seq<u8>)
    ensures
        decoded(encoded(bytes)) == bytes,
        encoded(bytes).len() == (bytes.len() + 2) / 3 * 4,
    decreases bytes.len(),
{
    lemma_encoded_len(bytes);
    if bytes.len() == 0 {
        assert(decoded(encoded(bytes)) =~= bytes);
    } else {
        let s = lemma_encoded_head(bytes);
        if bytes.len() < 3 {
            let none = Seq::<char>::empty();
            lemma_decoded_more(s, bytes, none);
            assert(s + none =~= s);
            assert(bytes + decoded(none) =~= bytes);
        } else {
            let rest = bytes.skip(3);
            encoding_is_reversible(rest);
            lemma_decoded_more(s, bytes.take(3), encoded(rest));
            assert(bytes.take(3) + rest =~= bytes);
        }
    }
}

fn symbol_of(n: u32) -> (c: char)
    requires
        n < 64,
    ensures
        c == symbol(n as int),
{
    if n < 26 {
        (65 + n as u8) as char
    } else if n < 52 {
        (97 + (n as u8 - 26)) as char
    } else if n < 62 {
        (48 + (n as u8 - 52)) as char
    } else if n == 62 {
        '+'
    } else {
        '/'
    }
}

/// Encodes bytes in standard base64, with padding.
pub fn base64(input: &[u8]) -> (out: String)
    ensures
        out@ == encoded(input@),
{
    let mut out = String::new();
    let n = input.len();
    let mut i: usize = 0;
    assert(input@.skip(0) =~= input@);
    while i < n
        invariant
            n == input@.len(),
            i <= n,
            encoded(input@) == out@ + encoded(input@.skip(i as int)),
        decreases n - i,
    {
        let ghost rest = input@.skip(i as int);
        let ghost before = out@;
        let left: usize = n - i;
        let b0: u8 = input[i];
        let b1: u8 = if left > 1 {
            input[i + 1]
        } else {
            0
        };
        let b2: u8 = if left > 2 {
            input[i + 2]
        } else {
            0
        };
        let bits: u32 = b0 as u32 * 0x10000 + b1 as u32 * 0x100 + b2 as u32;
        proof {
            lemma_group_parts(b0, b1, b2);
        }
        out.push(symbol_of(bits / 0x40000));
        out.push(symbol_of((bits / 0x1000) % 64));
        if left > 1 {
            out.push(symbol_of((bits / 64) % 64));
        } else {
            out.push('=');
        }
        if left > 2 {
            out.push(symbol_of(bits % 64));
        } else {
            out.push('=');
        }
        if left > 3 {
            proof {
                assert(rest.skip(3) =~= input@.skip(i + 3));
                assert(before + encoded(rest) =~= out@ + encoded(input@.skip(i + 3)));
            }
            i = i + 3;
        } else {
            proof {
                assert(rest.skip(left as int) =~= Seq::<u8>::empty());
                assert(input@.skip(n as int) =~= Seq::<u8>::empty());
                assert(before + encoded(rest) =~= out@);
            }
            i = n;
        }
    }
    assert(input@.skip(n as int) =~= Seq::<u8>::empty());
    assert(out@ =~= encoded(input@));
    out
}

/// The sequence that carries the given bytes to the clipboard. It ends in BEL,
/// the one terminator every terminal honours.
pub open spec fn sequence_of(bytes: Seq<u8>) -> Seq<char> {
    "\x1b]52;c;"@ + encoded(bytes) + "\x07"@
}

/// Builds the OSC 52 sequence.
pub fn osc52_sequence(bytes: &[u8]) -> (s: String)
    ensures
        s@ == sequence_of(bytes@),
{
    let mut s: String = "\x1b]52;c;".to_owned();
    s.append(base64(bytes).as_str());
    s.append("\x07");
    s
}

/// How many bytes a text takes in UTF-8.
pub open spec fn byte_len(text: Seq<char>) -> int {
    encode_utf8(text).len() as int
}

/// Whether a text can be copied.
pub open spec fn copyable(text: Seq<char>) -> Result<(), CopyError> {
    if text.len() == 0 {
        Err(CopyError::Empty)
    } else if byte_len(text) > MAX_CLIPBOARD_BYTES {
        Err(CopyError::TooLarge { len: byte_len(text) as usize })
    } else {
        Ok(())
    }
}

/// Checks that a text can be copied before anything is tried.
pub fn check(text: &str) -> (result: Result<(), CopyError>)
    ensures
        result == copyable(text@),
        result matches Err(CopyError::TooLarge { len }) ==> len == byte_len(text@),
{
    if text.unicode_len() == 0 {
        return Err(CopyError::Empty);
    }
    let len: usize = text.as_bytes().len();
    if len > MAX_CLIPBOARD_BYTES {
        return Err(CopyError::TooLarge { len });
    }
    Ok(())
}

/// What to write to copy a text to the clipboard of the host, where it can be
/// copied.
pub fn copy(text: &str) -> (clip: Result<Clip, CopyError>)
    ensures
        copyable(text@) is Ok ==> clip is Ok,
        clip matches Ok(c) ==> copyable(text@) is Ok && c.sequence@ == sequence_of(
            encode_utf8(text@),
        ) && c.len == byte_len(text@),
        clip matches Err(e) ==> copyable(text@) == Err::<(), CopyError>(e),
{
    match check(text) {
        Ok(()) => {
            let bytes = text.as_bytes();
            Ok(Clip { sequence: osc52_sequence(bytes), len: bytes.len() })
        },
        Err(e) => Err(e),
    }
}

/// The sequence holds its introducer, a payload that decodes to the bytes, and the
/// bell that ends it.
pub proof fn sequence_carries_the_bytes(bytes: Seq<u8>)
    ensures
        ({
            let s = sequence_of(bytes);
            &&& s.len() >= 8
            &&& s.take(7) == "\x1b]52;c;"@
            &&& s.last() == '\x07'
            &&& decoded(s.subrange(7, s.len() - 1)) == bytes
        }),
{
    let s = sequence_of(bytes);
    reveal_strlit("\x1b]52;c;");
    reveal_strlit("\x07");
    encoding_is_reversible(bytes);
    assert(s.take(7) =~= "\x1b]52;c;"@);
    assert(s.subrange(7, s.len() - 1) =~= encoded(bytes));
}

/// The symbols are those of the standard alphabet, in its order.
pub proof fn symbols_are_the_standard_alphabet(n: int)
    requires
        0 <= n < 64,
    ensures
        symbol(n) == "ABCDEFGHIJKLMNOPQRSTUVWXYZabcdefghijklmnopqrstuvwxyz0123456789+/"@[n],
        symbol_value(
            "ABCDEFGHIJKLMNOPQRSTUVWXYZabcdefghijklmnopqrstuvwxyz0123456789+/"@[n],
        ) == n,
{
    reveal_strlit("ABCDEFGHIJKLMNOPQRSTUVWXYZabcdefghijklmnopqrstuvwxyz0123456789+/");
    lemma_symbol(n);
}

/// A text can be copied exactly where it is not empty and takes at most 192
/// kilobytes.
pub proof fn only_empty_and_large_texts_are_refused(text: Seq<char>)
    ensures
        copyable(text) is Ok <==> 0 < text.len() && encode_utf8(text).len() <= 192 * 1024,
        copyable(text) == Err::<(), CopyError>(CopyError::Empty) <==> text.len() == 0,
{
}

} // verus!
