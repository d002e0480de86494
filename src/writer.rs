//! The buffer writer and the capacity escalator.
use vstd::prelude::*;
use crate::escape::{classify, escape_byte, escaped, lemma_escaped_push, Escape, QUOTE, SPACE};
use crate::panic_val::{PanicVal, Piece};
use crate::utils::{
    WasTruncated,
    display_outcome,
    lemma_char_floor_bound,
    lemma_quoted_fit_bound,
    min_usize,
    quoted_outcome,
};

verus! {

/// The largest message, in bytes; longer ones are truncated.
pub const MAX_PANIC_MSG_LEN: usize = 32768;

/// The capacity of the first attempt.
pub const FIRST_CAPACITY: usize = 1024;

/// The capacity of the second attempt.
pub const SECOND_CAPACITY: usize = 6144;

/// A render attempt ran out of room before all descriptors were written.
#[derive(Clone, Copy, PartialEq, Eq, Structural, Debug)]
pub struct NotEnoughSpace;

pub open spec fn spaces(n: nat) -> Seq<u8> {
    Seq::new(n, |_i: int| SPACE)
}

pub open spec fn min_nat(a: nat, b: nat) -> nat {
    if a < b {
        a
    } else {
        b
    }
}

/// How much of a piece's text fits in `b` bytes.
pub open spec fn outcome(p: Piece, b: nat) -> WasTruncated {
    if p.quoted {
        quoted_outcome(p.text, b)
    } else {
        display_outcome(p.text, b)
    }
}

/// The text of a piece as written in `b` bytes: a verbatim prefix, or an
/// opening quote (when there is room for one), the escaped prefix, and the
/// closing quote only when nothing was cut (and there is room).
pub open spec fn body(p: Piece, b: nat) -> Seq<u8> {
    let t = outcome(p, b);
    let shown = p.text.take(t.length_spec(p.text.len()) as int);
    if !p.quoted {
        shown
    } else {
        (if b > 0 {
            seq![QUOTE]
        } else {
            Seq::empty()
        }) + escaped(shown) + (if t is No && b > 0 {
            seq![QUOTE]
        } else {
            Seq::empty()
        })
    }
}

/// What a piece writes with `budget` bytes left: its left padding (clipped),
/// its body, and its right padding clipped to what is left.
pub open spec fn leaf_output(p: Piece, budget: nat) -> Seq<u8> {
    if p.left > budget {
        spaces(budget)
    } else {
        let b = (budget - p.left) as nat;
        let bd = body(p, b);
        spaces(p.left) + bd + spaces(min_nat(p.right, (b - bd.len()) as nat))
    }
}

/// Whether the piece ran out of room with `budget` bytes left.
pub open spec fn leaf_truncated(p: Piece, budget: nat) -> bool {
    p.left > budget || outcome(p, (budget - p.left) as nat) is Yes
}

/// The state of a render pass.
pub enum Progress {
    /// Everything so far was written in full.
    Going(Seq<u8>),
    /// The hard cap was reached; nothing more is written.
    Stopped(Seq<u8>),
    /// A capacity below the hard cap ran out of room.
    Overflow,
}

impl Progress {
    pub open spec fn text(self) -> Seq<u8> {
        match self {
            Progress::Going(o) => o,
            Progress::Stopped(o) => o,
            Progress::Overflow => Seq::empty(),
        }
    }
}

/// Writing one piece at capacity `cap`; at the hard cap a truncated piece
/// ends the pass, below it the pass overflows.
pub open spec fn step(st: Progress, p: Piece, cap: nat, hard_cap: bool) -> Progress {
    match st {
        Progress::Going(out) => {
            let budget = (cap - out.len()) as nat;
            let o = out + leaf_output(p, budget);
            if !leaf_truncated(p, budget) {
                Progress::Going(o)
            } else if hard_cap {
                Progress::Stopped(o)
            } else {
                Progress::Overflow
            }
        },
        _ => st,
    }
}

/// The first `n` pieces of group `g` written after state `st`.
pub open spec fn run_group(st: Progress, g: Seq<Piece>, cap: nat, hard_cap: bool, n: nat) -> Progress
    decreases n,
{
    if n == 0 {
        st
    } else {
        step(run_group(st, g, cap, hard_cap, (n - 1) as nat), g[n - 1], cap, hard_cap)
    }
}

/// The first `k` groups of `f` written in order.
pub open spec fn run_forest(f: Seq<Seq<Piece>>, cap: nat, hard_cap: bool, k: nat) -> Progress
    decreases k,
{
    if k == 0 {
        Progress::Going(Seq::empty())
    } else {
        let g = f[k - 1];
        run_group(run_forest(f, cap, hard_cap, (k - 1) as nat), g, cap, hard_cap, g.len())
    }
}

/// A whole forest written at capacity `cap`.
pub open spec fn render(f: Seq<Seq<Piece>>, cap: nat, hard_cap: bool) -> Progress {
    run_forest(f, cap, hard_cap, f.len())
}

/// The pieces of a slice of groups of descriptors.
pub open spec fn forest_view(args: Seq<&[PanicVal]>) -> Seq<Seq<Piece>> {
    Seq::new(args.len(), |i: int| args[i]@.map_values(|v: PanicVal| v@))
}

/// The message of the escalator: the first attempt that does not overflow.
pub open spec fn message(f: Seq<Seq<Piece>>) -> Seq<u8> {
    let a = render(f, FIRST_CAPACITY as nat, false);
    let b = render(f, SECOND_CAPACITY as nat, false);
    if !(a is Overflow) {
        a.text()
    } else if !(b is Overflow) {
        b.text()
    } else {
        render(f, MAX_PANIC_MSG_LEN as nat, true).text()
    }
}

pub proof fn lemma_body_len(p: Piece, b: nat)
    requires
        p.text.len() <= usize::MAX,
    ensures
        body(p, b).len() <= b,
        outcome(p, b).length_spec(p.text.len()) <= p.text.len(),
{
    let t = outcome(p, b);
    let n = t.length_spec(p.text.len());
    let shown = p.text.take(n as int);
    if p.quoted {
        lemma_quoted_fit_bound(p.text, b, p.text.len());
        assert(p.text.take(p.text.len() as int) =~= p.text);
        assert(p.text.take(0) =~= Seq::<u8>::empty());
        assert(escaped(Seq::<u8>::empty()).len() == 0);
        let open_q: Seq<u8> = if b > 0 {
            seq![QUOTE]
        } else {
            Seq::empty()
        };
        let close_q: Seq<u8> = if t is No && b > 0 {
            seq![QUOTE]
        } else {
            Seq::empty()
        };
        assert(body(p, b) == open_q + escaped(shown) + close_q);
        if t is No && b > 0 {
            assert(shown == p.text);
        } else if t is No {
            assert(shown.len() == 0);
            assert(escaped(shown).len() == 0);
        } else if n == 0 {
            assert(escaped(shown).len() == 0);
        } else {
            assert(2 + escaped(shown).len() <= b);
        }
    } else {
        lemma_char_floor_bound(p.text, b);
    }
}

pub proof fn lemma_leaf_output_len(p: Piece, budget: nat)
    requires
        p.text.len() <= usize::MAX,
    ensures
        leaf_output(p, budget).len() <= budget,
{
    if p.left <= budget {
        lemma_body_len(p, (budget - p.left) as nat);
    }
}

proof fn lemma_run_group_settled(st: Progress, g: Seq<Piece>, cap: nat, hard_cap: bool, j: nat, n: nat)
    requires
        j <= n,
        !(run_group(st, g, cap, hard_cap, j) is Going),
    ensures
        run_group(st, g, cap, hard_cap, n) == run_group(st, g, cap, hard_cap, j),
    decreases n,
{
    if n > j {
        lemma_run_group_settled(st, g, cap, hard_cap, j, (n - 1) as nat);
    }
}

proof fn lemma_run_forest_settled(f: Seq<Seq<Piece>>, cap: nat, hard_cap: bool, k: nat, n: nat)
    requires
        k <= n,
        !(run_forest(f, cap, hard_cap, k) is Going),
    ensures
        run_forest(f, cap, hard_cap, n) == run_forest(f, cap, hard_cap, k),
    decreases n,
{
    if n > k {
        lemma_run_forest_settled(f, cap, hard_cap, k, (n - 1) as nat);
        let st = run_forest(f, cap, hard_cap, (n - 1) as nat);
        lemma_run_group_settled(st, f[n - 1], cap, hard_cap, 0, f[n - 1].len());
    }
}

fn push_spaces(buf: &mut Vec<u8>, n: usize)
    ensures
        final(buf)@ == old(buf)@ + spaces(n as nat),
{
    let ghost start = buf@;
    let mut k: usize = 0;
    while k < n
        invariant
            k <= n,
            buf@ == start + spaces(k as nat),
        decreases n - k,
    {
        buf.push(SPACE);
        k += 1;
        assert(buf@ =~= start + spaces(k as nat));
    }
}

fn push_prefix(buf: &mut Vec<u8>, string: &[u8], n: usize)
    requires
        n <= string@.len(),
    ensures
        final(buf)@ == old(buf)@ + string@.take(n as int),
{
    let ghost start = buf@;
    let mut i: usize = 0;
    while i < n
        invariant
            i <= n <= string@.len(),
            buf@ == start + string@.take(i as int),
        decreases n - i,
    {
        buf.push(string[i]);
        i += 1;
        assert(buf@ =~= start + string@.take(i as int));
    }
}

fn push_escaped(buf: &mut Vec<u8>, b: u8)
    ensures
        final(buf)@ == old(buf)@ + escape_byte(b),
{
    let ghost start = buf@;
    match classify(b) {
        Escape::Unescaped(c) => {
            buf.push(c);
        },
        Escape::Shorthand(c) => {
            buf.push(0x5c);
            buf.push(c);
        },
        Escape::Hex(hi, lo) => {
            buf.push(0x5c);
            buf.push(0x78);
            buf.push(hi);
            buf.push(lo);
        },
    }
    assert(buf@ =~= start + escape_byte(b));
}

fn push_escaped_prefix(buf: &mut Vec<u8>, string: &[u8], n: usize)
    requires
        n <= string@.len(),
    ensures
        final(buf)@ == old(buf)@ + escaped(string@.take(n as int)),
{
    let ghost start = buf@;
    let mut i: usize = 0;
    assert(string@.take(0) =~= Seq::<u8>::empty());
    assert(start + escaped(Seq::<u8>::empty()) =~= start);
    while i < n
        invariant
            i <= n <= string@.len(),
            buf@ == start + escaped(string@.take(i as int)),
        decreases n - i,
    {
        push_escaped(buf, string[i]);
        proof {
            assert(string@.take(i + 1) =~= string@.take(i as int).push(string@[i as int]));
            lemma_escaped_push(string@.take(i as int), string@[i as int]);
        }
        i += 1;
        assert(buf@ =~= start + escaped(string@.take(i as int)));
    }
}

/// Writes the body of a piece whose text is `string` in `b` bytes.
fn write_body(
    buf: &mut Vec<u8>,
    string: &[u8],
    quoted: bool,
    was_truncated: WasTruncated,
    b: usize,
    Ghost(p): Ghost<Piece>,
)
    requires
        p.text == string@,
        p.quoted == quoted,
        was_truncated == outcome(p, b as nat),
    ensures
        final(buf)@ == old(buf)@ + body(p, b as nat),
{
    let ghost start = buf@;
    // The text is a slice, so its length fits in usize.
    let _ = string.len();
    proof {
        lemma_body_len(p, b as nat);
    }
    let n = was_truncated.get_length(string);
    if !quoted {
        push_prefix(buf, string, n);
    } else {
        let ghost open_q: Seq<u8> = if b > 0 {
            seq![QUOTE]
        } else {
            Seq::empty()
        };
        if b != 0 {
            buf.push(QUOTE);
        }
        assert(buf@ =~= start + open_q);
        push_escaped_prefix(buf, string, n);
        if let WasTruncated::No = was_truncated {
            if b != 0 {
                buf.push(QUOTE);
            }
        }
    }
    assert(buf@ =~= start + body(p, b as nat));
}

/// Writes one descriptor into `buf`, which may grow to `capacity` bytes, and
/// says whether its content was cut short.
fn write_leaf(buf: &mut Vec<u8>, capacity: usize, arg: &PanicVal) -> (truncated: bool)
    requires
        old(buf)@.len() <= capacity,
    ensures
        final(buf)@ == old(buf)@ + leaf_output(arg@, (capacity - old(buf)@.len()) as nat),
        truncated == leaf_truncated(arg@, (capacity - old(buf)@.len()) as nat),
        final(buf)@.len() <= capacity,
{
    let ghost start = buf@;
    let ghost p = arg@;
    let rem = capacity - buf.len();
    let (lpad, string, quoted, was_truncated) = arg.layout(rem);
    // The text is a slice, so its length fits in usize.
    let _ = arg.content().len();
    proof {
        lemma_leaf_output_len(p, rem as nat);
    }
    push_spaces(buf, lpad);
    if arg.leftpad() as usize > rem {
        return true;
    }
    let b = rem - lpad;
    proof {
        lemma_body_len(p, b as nat);
    }
    write_body(buf, string, quoted, was_truncated, b, Ghost(p));
    let ghost mid = buf@;
    assert(mid =~= start + spaces(lpad as nat) + body(p, b as nat));
    let rpad = min_usize(arg.rightpad() as usize, capacity - buf.len());
    push_spaces(buf, rpad);
    assert(buf@ =~= start + leaf_output(p, rem as nat));
    matches!(was_truncated, WasTruncated::Yes(_))
}

/// Renders `args` into a buffer of `capacity` bytes. Where a descriptor does
/// not fit, this fails below `max_capacity`; at or above it the message is cut
/// there and the rest is dropped.
pub fn format_panic_message(args: &[&[PanicVal]], capacity: usize, max_capacity: usize) -> (r:
    Result<Vec<u8>, NotEnoughSpace>)
    ensures
        ({
            let p = render(forest_view(args@), capacity as nat, capacity >= max_capacity);
            match r {
                Ok(v) => !(p is Overflow) && v@ == p.text(),
                Err(_) => p is Overflow,
            }
        }),
        capacity >= max_capacity ==> r is Ok,
        r matches Ok(v) ==> v@.len() <= capacity,
{
    let ghost f = forest_view(args@);
    let ghost hard = capacity >= max_capacity;
    let mut buf: Vec<u8> = Vec::new();
    let mut i: usize = 0;
    while i < args.len()
        invariant
            f == forest_view(args@),
            hard == (capacity >= max_capacity),
            i <= args@.len(),
            buf@.len() <= capacity,
            run_forest(f, capacity as nat, hard, i as nat) == Progress::Going(buf@),
        decreases args@.len() - i,
    {
        let group = args[i];
        let ghost st0 = run_forest(f, capacity as nat, hard, i as nat);
        let ghost g = f[i as int];
        assert(g == group@.map_values(|v: PanicVal| v@));
        let mut j: usize = 0;
        while j < group.len()
            invariant
                f == forest_view(args@),
                hard == (capacity >= max_capacity),
                i < args@.len(),
                g == f[i as int],
                g == group@.map_values(|v: PanicVal| v@),
                st0 == run_forest(f, capacity as nat, hard, i as nat),
                j <= group@.len(),
                buf@.len() <= capacity,
                run_group(st0, g, capacity as nat, hard, j as nat) == Progress::Going(buf@),
            decreases group@.len() - j,
        {
            let ghost before = buf@;
            let truncated = write_leaf(&mut buf, capacity, &group[j]);
            if truncated {
                proof {
                    lemma_run_group_settled(st0, g, capacity as nat, hard, (j + 1) as nat, g.len());
                    lemma_run_forest_settled(f, capacity as nat, hard, (i + 1) as nat, f.len());
                }
                if capacity >= max_capacity {
                    return Ok(buf);
                } else {
                    return Err(NotEnoughSpace);
                }
            }
            j += 1;
        }
        i += 1;
    }
    Ok(buf)
}

/// Renders `args` into exactly `capacity` bytes, failing where they do not fit.
pub fn make_panic_string(args: &[&[PanicVal]], capacity: usize) -> (r: Result<Vec<u8>, NotEnoughSpace>)
    requires
        capacity < usize::MAX,
    ensures
        ({
            let p = render(forest_view(args@), capacity as nat, false);
            match r {
                Ok(v) => !(p is Overflow) && v@ == p.text(),
                Err(_) => p is Overflow,
            }
        }),
{
    format_panic_message(args, capacity, capacity + 1)
}

/// Renders `args` as a message: first at a small capacity, then at a larger
/// one, and at last at `MAX_PANIC_MSG_LEN`, where the message is truncated
/// rather than failing.
pub fn concat_panic(args: &[&[PanicVal]]) -> (r: Vec<u8>)
    ensures
        r@ == message(forest_view(args@)),
        r@.len() <= MAX_PANIC_MSG_LEN,
{
    let ghost f = forest_view(args@);
    let capacities: [usize; 3] = [FIRST_CAPACITY, SECOND_CAPACITY, MAX_PANIC_MSG_LEN];
    let mut k: usize = 0;
    while k < 3
        invariant
            k <= 2,
            f == forest_view(args@),
            capacities@ == seq![FIRST_CAPACITY, SECOND_CAPACITY, MAX_PANIC_MSG_LEN],
            k >= 1 ==> render(f, FIRST_CAPACITY as nat, false) is Overflow,
            k >= 2 ==> render(f, SECOND_CAPACITY as nat, false) is Overflow,
        decreases 3 - k,
    {
        let capacity = capacities[k];
        assert(capacity == capacities@[k as int]);
        match format_panic_message(args, capacity, MAX_PANIC_MSG_LEN) {
            Ok(v) => {
                return v;
            },
            Err(_) => {},
        }
        k += 1;
    }
    Vec::new()
}

} // verus!
