//! The truncation calculator: how much of a text fits in a budget of output bytes.
use vstd::prelude::*;
use crate::escape::{byte_len, escaped, lemma_escaped_take_monotone, lemma_escaped_take_step};

verus! {

/// Whether a text was cut short, and if so how many of its bytes are written.
#[derive(Clone, Copy, PartialEq, Eq, Structural, Debug)]
pub enum WasTruncated {
    No,
    Yes(usize),
}

impl WasTruncated {
    pub open spec fn is_yes(self) -> bool {
        self is Yes
    }

    /// The number of source bytes that are written, of a text of `len` bytes.
    pub open spec fn length_spec(self, len: nat) -> nat {
        match self {
            WasTruncated::No => len,
            WasTruncated::Yes(i) => i as nat,
        }
    }

    pub fn get_length(&self, string: &[u8]) -> (r: usize)
        ensures
            r == self.length_spec(string@.len()),
    {
        match self {
            WasTruncated::No => string.len(),
            WasTruncated::Yes(i) => *i,
        }
    }
}

#[derive(Clone, Copy, PartialEq, Eq, Structural, Debug)]
pub enum Sign {
    Positive,
    Negative,
}

pub fn min_usize(l: usize, r: usize) -> (m: usize)
    ensures
        m == if l < r { l } else { r },
{
    if l < r {
        l
    } else {
        r
    }
}

/// A UTF-8 continuation byte (`0b10xx_xxxx`).
pub open spec fn is_continuation(b: u8) -> bool {
    0x80 <= b < 0xc0
}

/// The largest position at or below `i` that starts a character (or is 0).
pub open spec fn char_floor(s: Seq<u8>, i: nat) -> nat
    recommends
        i < s.len(),
    decreases i,
{
    if i == 0 {
        0
    } else if !is_continuation(s[i as int]) {
        i
    } else {
        char_floor(s, (i - 1) as nat)
    }
}

/// Verbatim output: all of `s` when it fits in `budget`, else the longest
/// prefix that fits and does not split a character.
pub open spec fn display_outcome(s: Seq<u8>, budget: nat) -> WasTruncated {
    if s.len() <= budget {
        WasTruncated::No
    } else {
        WasTruncated::Yes(char_floor(s, budget) as usize)
    }
}

/// The longest prefix length, at most `n`, whose escaped form fits in
/// `budget` together with both quotes (0 when none does).
pub open spec fn quoted_fit(s: Seq<u8>, budget: nat, n: nat) -> nat
    decreases n,
{
    if n == 0 || 2 + escaped(s.take(n as int)).len() <= budget {
        n
    } else {
        quoted_fit(s, budget, (n - 1) as nat)
    }
}

/// Quoted output: all of `s` when both quotes and its escaped form fit in
/// `budget` (and an empty text with no budget, which writes nothing); else the
/// longest prefix whose escaped form still leaves room for the closing quote.
pub open spec fn quoted_outcome(s: Seq<u8>, budget: nat) -> WasTruncated {
    if 2 + escaped(s).len() <= budget || (budget == 0 && s.len() == 0) {
        WasTruncated::No
    } else {
        WasTruncated::Yes(quoted_fit(s, budget, s.len()) as usize)
    }
}

pub proof fn lemma_char_floor_bound(s: Seq<u8>, i: nat)
    ensures
        char_floor(s, i) <= i,
    decreases i,
{
    if i > 0 {
        lemma_char_floor_bound(s, (i - 1) as nat);
    }
}

pub proof fn lemma_quoted_fit_bound(s: Seq<u8>, budget: nat, n: nat)
    ensures
        quoted_fit(s, budget, n) <= n,
        quoted_fit(s, budget, n) == 0 || 2 + escaped(s.take(quoted_fit(s, budget, n) as int)).len()
            <= budget,
    decreases n,
{
    if n > 0 {
        lemma_quoted_fit_bound(s, budget, (n - 1) as nat);
    }
}

proof fn lemma_quoted_fit_is(s: Seq<u8>, budget: nat, n: nat, i: nat)
    requires
        i <= n <= s.len(),
        i == 0 || 2 + escaped(s.take(i as int)).len() <= budget,
        i < n ==> 2 + escaped(s.take(i + 1 as int)).len() > budget,
    ensures
        quoted_fit(s, budget, n) == i,
    decreases n,
{
    if n > i {
        lemma_escaped_take_monotone(s, i as int + 1, n as int);
        lemma_quoted_fit_is(s, budget, (n - 1) as nat, i);
    }
}

/// How many bytes of `string` are written verbatim in `truncate_to` bytes.
pub fn truncated_str_len(string: &[u8], truncate_to: usize) -> (r: WasTruncated)
    ensures
        r == display_outcome(string@, truncate_to as nat),
{
    if string.len() <= truncate_to {
        WasTruncated::No
    } else {
        let mut i: usize = truncate_to;
        while i != 0
            invariant
                i <= truncate_to < string@.len(),
                char_floor(string@, truncate_to as nat) == char_floor(string@, i as nat),
            ensures
                char_floor(string@, truncate_to as nat) == i,
            decreases i,
        {
            if !(0x80 <= string[i] && string[i] < 0xc0) {
                assert(char_floor(string@, i as nat) == i);
                break;
            }
            i -= 1;
        }
        WasTruncated::Yes(i)
    }
}

/// How many bytes of `string` are written escaped, between quotes, in
/// `truncate_to` bytes.
pub fn truncated_debug_str_len(string: &[u8], truncate_to: usize) -> (r: WasTruncated)
    ensures
        r == quoted_outcome(string@, truncate_to as nat),
{
    let ghost s = string@;
    let len = string.len();
    let mut i: usize = 0;
    let mut fmtlen: usize = 2;
    while i < len
        invariant
            len == s.len(),
            s == string@,
            i <= len,
            fmtlen == 2 + escaped(s.take(i as int)).len(),
            i == 0 || fmtlen <= truncate_to,
        ensures
            i <= len,
            fmtlen == 2 + escaped(s.take(i as int)).len(),
            i == 0 || fmtlen <= truncate_to,
            i < len ==> 2 + escaped(s.take(i + 1 as int)).len() > truncate_to,
        decreases len - i,
    {
        let w = byte_len(string[i]);
        proof {
            lemma_escaped_take_step(s, i as int);
        }
        if fmtlen > truncate_to || w > truncate_to - fmtlen {
            break;
        }
        fmtlen += w;
        i += 1;
    }
    proof {
        lemma_quoted_fit_is(s, truncate_to as nat, len as nat, i as nat);
        assert(s.take(len as int) =~= s);
        if i < len {
            lemma_escaped_take_monotone(s, i as int + 1, len as int);
        }
    }
    if i == len && (fmtlen <= truncate_to || (len == 0 && truncate_to == 0)) {
        WasTruncated::No
    } else {
        WasTruncated::Yes(i)
    }
}

} // verus!
