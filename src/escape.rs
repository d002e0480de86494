//! The escaping policy of quoted output: a fixed table from byte value to its
//! textual form.
use vstd::prelude::*;

verus! {

/// The byte `\`.
pub const BACKSLASH: u8 = 0x5c;

/// The byte `"`.
pub const QUOTE: u8 = 0x22;

/// The byte ` `.
pub const SPACE: u8 = 0x20;

/// The byte is written as a backslash escape (shorthand or hex) in quoted output.
pub open spec fn is_escaped_spec(b: u8) -> bool {
    b < 0x20 || b >= 0x7f || b == 0x5c || b == 0x22
}

/// The byte has a two-character shorthand escape: `\n`, `\t`, `\r`, `\\`, `\"`, `\0`.
pub open spec fn is_shorthand_spec(b: u8) -> bool {
    b == 0x0a || b == 0x09 || b == 0x0d || b == 0x5c || b == 0x22 || b == 0
}

/// The character that follows the backslash in a shorthand escape.
pub open spec fn shorthand_char_spec(b: u8) -> u8 {
    if b == 0x0a {
        0x6e  // n

    } else if b == 0x09 {
        0x74  // t

    } else if b == 0x0d {
        0x72  // r

    } else if b == 0 {
        0x30  // 0

    } else {
        b
    }
}

/// Upper-case hexadecimal digit of a nibble.
pub open spec fn hex_digit_spec(n: u8) -> u8 {
    if n < 10 {
        (n + 0x30) as u8
    } else {
        (n - 10 + 0x41) as u8
    }
}

/// The escaped form of one byte.
pub open spec fn escape_byte(b: u8) -> Seq<u8> {
    if !is_escaped_spec(b) {
        seq![b]
    } else if is_shorthand_spec(b) {
        seq![0x5cu8, shorthand_char_spec(b)]
    } else {
        seq![0x5cu8, 0x78u8, hex_digit_spec(b / 16), hex_digit_spec(b % 16)]
    }
}

/// The escaped form of a byte string: the escapes of its bytes, in order.
pub open spec fn escaped(s: Seq<u8>) -> Seq<u8>
    decreases s.len(),
{
    if s.len() == 0 {
        Seq::empty()
    } else {
        escaped(s.drop_last()) + escape_byte(s.last())
    }
}

/// How one byte is written in quoted output.
#[derive(Clone, Copy, PartialEq, Eq, Structural, Debug)]
pub enum Escape {
    /// Written as itself.
    Unescaped(u8),
    /// A backslash and this character.
    Shorthand(u8),
    /// A backslash, `x`, and these two hex digits.
    Hex(u8, u8),
}

impl Escape {
    pub open spec fn text(self) -> Seq<u8> {
        match self {
            Escape::Unescaped(b) => seq![b],
            Escape::Shorthand(c) => seq![0x5cu8, c],
            Escape::Hex(hi, lo) => seq![0x5cu8, 0x78u8, hi, lo],
        }
    }
}

pub fn is_escaped(b: u8) -> (r: bool)
    ensures
        r == is_escaped_spec(b),
{
    b < 0x20 || b >= 0x7f || b == BACKSLASH || b == QUOTE
}

pub fn is_backslash_escaped(b: u8) -> (r: bool)
    ensures
        r == is_shorthand_spec(b),
{
    b == 0x0a || b == 0x09 || b == 0x0d || b == BACKSLASH || b == QUOTE || b == 0
}

pub fn get_backslash_escape(b: u8) -> (r: u8)
    ensures
        r == shorthand_char_spec(b),
{
    match b {
        0x0a => 0x6e,
        0x09 => 0x74,
        0x0d => 0x72,
        0 => 0x30,
        _ => b,
    }
}

pub fn hex_as_ascii(n: u8) -> (r: u8)
    requires
        n < 16,
    ensures
        r == hex_digit_spec(n),
{
    if n < 10 {
        n + 0x30
    } else {
        n - 10 + 0x41
    }
}

/// Classifies a byte: total over all byte values.
pub fn classify(b: u8) -> (r: Escape)
    ensures
        r.text() == escape_byte(b),
{
    if !is_escaped(b) {
        Escape::Unescaped(b)
    } else if is_backslash_escaped(b) {
        Escape::Shorthand(get_backslash_escape(b))
    } else {
        Escape::Hex(hex_as_ascii(b / 16), hex_as_ascii(b % 16))
    }
}

/// The number of output bytes that one source byte takes in quoted output.
pub fn byte_len(b: u8) -> (r: usize)
    ensures
        r == escape_byte(b).len(),
        1 <= r <= 4,
{
    if !is_escaped(b) {
        1
    } else if is_backslash_escaped(b) {
        2
    } else {
        4
    }
}

pub proof fn lemma_escaped_push(s: Seq<u8>, b: u8)
    ensures
        escaped(s.push(b)) == escaped(s) + escape_byte(b),
{
    assert(s.push(b).drop_last() =~= s);
}

pub proof fn lemma_escaped_take_step(s: Seq<u8>, n: int)
    requires
        0 <= n < s.len(),
    ensures
        escaped(s.take(n + 1)) == escaped(s.take(n)) + escape_byte(s[n]),
{
    assert(s.take(n + 1) =~= s.take(n).push(s[n]));
    lemma_escaped_push(s.take(n), s[n]);
}

/// The escaped form of a longer prefix is at least as long.
pub proof fn lemma_escaped_take_monotone(s: Seq<u8>, m: int, n: int)
    requires
        0 <= m <= n <= s.len(),
    ensures
        escaped(s.take(m)).len() + (n - m) <= escaped(s.take(n)).len(),
    decreases n - m,
{
    if m < n {
        lemma_escaped_take_monotone(s, m, n - 1);
        lemma_escaped_take_step(s, n - 1);
    }
}

/// A string with no byte that needs escaping is its own escaped form.
pub proof fn lemma_escaped_plain(s: Seq<u8>)
    requires
        forall|i: int| 0 <= i < s.len() ==> !is_escaped_spec(#[trigger] s[i]),
    ensures
        escaped(s) == s,
    decreases s.len(),
{
    if s.len() > 0 {
        lemma_escaped_plain(s.drop_last());
        assert(s.drop_last().push(s.last()) =~= s);
    }
}

} // verus!
