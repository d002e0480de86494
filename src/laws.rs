//! Properties of the renderer, stated over its model and proved.
use vstd::prelude::*;
use crate::escape::{
    escape_byte,
    escaped,
    is_escaped_spec,
    is_shorthand_spec,
    lemma_escaped_plain,
    shorthand_char_spec,
    BACKSLASH,
    QUOTE,
};
use crate::panic_val::Piece;
use crate::utils::{char_floor, lemma_quoted_fit_bound, WasTruncated};
use crate::writer::{
    body,
    leaf_output,
    leaf_truncated,
    message,
    min_nat,
    outcome,
    render,
    run_forest,
    run_group,
    spaces,
    step,
    lemma_body_len,
    lemma_leaf_output_len,
    Progress,
    FIRST_CAPACITY,
};

verus! {

/// A message of one descriptor.
pub open spec fn single(p: Piece) -> Seq<Seq<Piece>> {
    seq![seq![p]]
}

proof fn lemma_render_single(p: Piece, cap: nat, hard_cap: bool)
    ensures
        render(single(p), cap, hard_cap) == step(Progress::Going(Seq::empty()), p, cap, hard_cap),
{
    let f = single(p);
    assert(f[0] == seq![p]);
    assert(run_forest(f, cap, hard_cap, 0) == Progress::Going(Seq::<u8>::empty()));
    assert(run_group(Progress::Going(Seq::empty()), seq![p], cap, hard_cap, 0) == Progress::Going(
        Seq::<u8>::empty(),
    ));
}

/// Verbatim text that fits, with its padding, is written exactly, padding
/// included, byte for byte.
pub proof fn lemma_display_fits(p: Piece, cap: nat, hard_cap: bool)
    requires
        !p.quoted,
        p.left + p.text.len() + p.right <= cap,
    ensures
        render(single(p), cap, hard_cap) == Progress::Going(
            spaces(p.left) + p.text + spaces(p.right),
        ),
{
    lemma_render_single(p, cap, hard_cap);
    let b = (cap - p.left) as nat;
    assert(outcome(p, b) == WasTruncated::No);
    assert(p.text.take(p.text.len() as int) =~= p.text);
    assert(body(p, b) == p.text);
    assert(leaf_output(p, cap) == spaces(p.left) + p.text + spaces(p.right));
    assert(Seq::<u8>::empty() + leaf_output(p, cap) =~= leaf_output(p, cap));
}

/// A verbatim text shorter than the first capacity, whose padding fits in that
/// capacity too, comes out of the escalator exactly, padding included.
pub proof fn lemma_display_message(p: Piece)
    requires
        !p.quoted,
        p.left + p.text.len() + p.right <= FIRST_CAPACITY,
    ensures
        message(single(p)) == spaces(p.left) + p.text + spaces(p.right),
{
    lemma_display_fits(p, FIRST_CAPACITY as nat, false);
}

/// Quoted text with no byte that needs escaping comes out as a quote, the
/// text, and a quote.
pub proof fn lemma_quoted_plain(p: Piece, cap: nat, hard_cap: bool)
    requires
        p.quoted,
        forall|i: int| 0 <= i < p.text.len() ==> !is_escaped_spec(#[trigger] p.text[i]),
        p.left + 2 + p.text.len() + p.right <= cap,
    ensures
        render(single(p), cap, hard_cap) == Progress::Going(
            spaces(p.left) + seq![QUOTE] + p.text + seq![QUOTE] + spaces(p.right),
        ),
{
    lemma_render_single(p, cap, hard_cap);
    lemma_escaped_plain(p.text);
    let b = (cap - p.left) as nat;
    assert(outcome(p, b) == WasTruncated::No);
    assert(p.text.take(p.text.len() as int) =~= p.text);
    assert(body(p, b) == seq![QUOTE] + p.text + seq![QUOTE]);
    assert(Seq::<u8>::empty() + leaf_output(p, cap) =~= leaf_output(p, cap));
    assert(leaf_output(p, cap) =~= spaces(p.left) + seq![QUOTE] + p.text + seq![QUOTE] + spaces(
        p.right,
    ));
}

proof fn lemma_quoted_one_byte(b: u8, cap: nat, hard_cap: bool)
    requires
        cap >= 2 + escape_byte(b).len(),
    ensures
        render(single(Piece { left: 0, right: 0, text: seq![b], quoted: true }), cap, hard_cap)
            == Progress::Going(seq![QUOTE] + escape_byte(b) + seq![QUOTE]),
{
    let p = Piece { left: 0, right: 0, text: seq![b], quoted: true };
    lemma_render_single(p, cap, hard_cap);
    assert(seq![b].drop_last() =~= Seq::<u8>::empty());
    assert(escaped(Seq::<u8>::empty()) =~= Seq::<u8>::empty());
    assert(seq![b].last() == b);
    assert(escaped(seq![b]) =~= escape_byte(b));
    assert(outcome(p, cap) == WasTruncated::No);
    assert(p.text.take(1) =~= p.text);
    assert(Seq::<u8>::empty() + leaf_output(p, cap) =~= leaf_output(p, cap));
    assert(leaf_output(p, cap) =~= seq![QUOTE] + escape_byte(b) + seq![QUOTE]);
}

/// Each of newline, tab, carriage return, backslash, quote and NUL is written,
/// when quoted, as a backslash and one character (`n`, `t`, `r`, `\`, `"`, `0`).
pub proof fn lemma_shorthand_escape(b: u8, cap: nat, hard_cap: bool)
    requires
        is_shorthand_spec(b),
        cap >= 4,
    ensures
        render(single(Piece { left: 0, right: 0, text: seq![b], quoted: true }), cap, hard_cap)
            == Progress::Going(seq![QUOTE, BACKSLASH, shorthand_char_spec(b), QUOTE]),
{
    lemma_quoted_one_byte(b, cap, hard_cap);
    assert(seq![QUOTE] + escape_byte(b) + seq![QUOTE] =~= seq![
        QUOTE,
        BACKSLASH,
        shorthand_char_spec(b),
        QUOTE,
    ]);
}

/// The byte 0x01 is written, when quoted, as `\x01`.
pub proof fn lemma_hex_escape(cap: nat, hard_cap: bool)
    requires
        cap >= 6,
    ensures
        render(single(Piece { left: 0, right: 0, text: seq![1u8], quoted: true }), cap, hard_cap)
            == Progress::Going(seq![QUOTE, BACKSLASH, 0x78u8, 0x30u8, 0x31u8, QUOTE]),
{
    lemma_quoted_one_byte(1u8, cap, hard_cap);
    assert(seq![QUOTE] + escape_byte(1u8) + seq![QUOTE] =~= seq![
        QUOTE,
        BACKSLASH,
        0x78u8,
        0x30u8,
        0x31u8,
        QUOTE,
    ]);
}

/// Quoted output never ends inside an escape: whatever the budget, what is
/// written is padding, then (when there is room) an opening quote, the escapes
/// of a whole prefix of the text, and padding. The closing quote follows
/// exactly when the descriptor was not cut short; then the whole text was
/// written, and a non-empty text written whole is always closed.
pub proof fn lemma_quoted_whole_escapes(p: Piece, budget: nat)
    requires
        p.quoted,
        p.text.len() <= usize::MAX,
    ensures
        p.left >= budget ==> leaf_output(p, budget) == spaces(budget),
        p.left < budget ==> exists|n: nat, k: nat, close: Seq<u8>|
            #![trigger p.text.take(n as int), spaces(k), close.len()]
            {
                &&& n <= p.text.len()
                &&& leaf_output(p, budget) == spaces(p.left) + seq![QUOTE] + escaped(
                    p.text.take(n as int),
                ) + close + spaces(k)
                &&& close == seq![QUOTE] || close == Seq::<u8>::empty()
                &&& close == seq![QUOTE] <==> !leaf_truncated(p, budget)
                &&& close == seq![QUOTE] ==> n == p.text.len()
                &&& n == p.text.len() && p.text.len() > 0 ==> close == seq![QUOTE]
            },
{
    assert(p.text.take(p.text.len() as int) =~= p.text);
    if p.left == budget {
        let b: nat = 0;
        lemma_quoted_fit_bound(p.text, 0, p.text.len());
        assert(p.text.take(0) =~= Seq::<u8>::empty());
        assert(escaped(Seq::<u8>::empty()) == Seq::<u8>::empty());
        assert(body(p, b) =~= Seq::<u8>::empty());
        assert(spaces(p.left) + Seq::<u8>::empty() + spaces(0) =~= spaces(budget));
    } else if p.left < budget {
        let b = (budget - p.left) as nat;
        lemma_body_len(p, b);
        lemma_quoted_fit_bound(p.text, b, p.text.len());
        let t = outcome(p, b);
        let n = t.length_spec(p.text.len());
        let close: Seq<u8> = if t is No {
            seq![QUOTE]
        } else {
            Seq::empty()
        };
        if t is No {
            assert(2 + escaped(p.text).len() <= b);
        }
        let k = min_nat(p.right, (b - body(p, b).len()) as nat);
        assert(leaf_output(p, budget) == spaces(p.left) + seq![QUOTE] + escaped(
            p.text.take(n as int),
        ) + close + spaces(k));
        assert(close == seq![QUOTE] ==> n == p.text.len());
    }
}

/// The last pass, at the hard cap, never overflows and never writes past its
/// capacity.
pub proof fn lemma_hard_cap_never_overflows(f: Seq<Seq<Piece>>, cap: nat)
    requires
        forall|i: int, j: int|
            0 <= i < f.len() && 0 <= j < f[i].len() ==> #[trigger] f[i][j].text.len()
                <= usize::MAX,
    ensures
        !(render(f, cap, true) is Overflow),
        render(f, cap, true).text().len() <= cap,
{
    lemma_run_forest_hard(f, cap, f.len());
}

proof fn lemma_run_group_hard(st: Progress, g: Seq<Piece>, cap: nat, n: nat)
    requires
        !(st is Overflow),
        st.text().len() <= cap,
        n <= g.len(),
        forall|j: int| 0 <= j < g.len() ==> #[trigger] g[j].text.len() <= usize::MAX,
    ensures
        !(run_group(st, g, cap, true, n) is Overflow),
        run_group(st, g, cap, true, n).text().len() <= cap,
    decreases n,
{
    if n > 0 {
        lemma_run_group_hard(st, g, cap, (n - 1) as nat);
        let s = run_group(st, g, cap, true, (n - 1) as nat);
        if let Progress::Going(o) = s {
            lemma_leaf_output_len(g[n - 1], (cap - o.len()) as nat);
        }
    }
}

proof fn lemma_run_forest_hard(f: Seq<Seq<Piece>>, cap: nat, k: nat)
    requires
        k <= f.len(),
        forall|i: int, j: int|
            0 <= i < f.len() && 0 <= j < f[i].len() ==> #[trigger] f[i][j].text.len()
                <= usize::MAX,
    ensures
        !(run_forest(f, cap, true, k) is Overflow),
        run_forest(f, cap, true, k).text().len() <= cap,
    decreases k,
{
    if k > 0 {
        lemma_run_forest_hard(f, cap, (k - 1) as nat);
        let g = f[k - 1];
        assert forall|j: int| 0 <= j < g.len() implies #[trigger] g[j].text.len()
            <= usize::MAX by {
            assert(f[k - 1][j].text.len() <= usize::MAX);
        }
        lemma_run_group_hard(run_forest(f, cap, true, (k - 1) as nat), g, cap, g.len());
    }
}

/// With no room left, a descriptor with padding or text writes nothing and
/// reports that it was cut short.
pub proof fn lemma_zero_budget(p: Piece)
    requires
        p.left > 0 || p.text.len() > 0,
    ensures
        leaf_output(p, 0) == Seq::<u8>::empty(),
        leaf_truncated(p, 0),
{
    assert(spaces(0) =~= Seq::<u8>::empty());
    if p.left == 0 {
        lemma_quoted_fit_bound(p.text, 0, p.text.len());
        assert(p.text.take(0) =~= Seq::<u8>::empty());
        assert(escaped(Seq::<u8>::empty()) == Seq::<u8>::empty());
        assert(body(p, 0) =~= Seq::<u8>::empty());
        assert(leaf_output(p, 0) =~= Seq::<u8>::empty());
    }
}

/// A verbatim descriptor whose text is ASCII.
pub open spec fn ascii_display(p: Piece) -> bool {
    &&& !p.quoted
    &&& p.text.len() <= usize::MAX
    &&& forall|i: int| 0 <= i < p.text.len() ==> #[trigger] p.text[i] < 0x80
}

/// Every descriptor of the forest is verbatim ASCII text.
pub open spec fn ascii_display_forest(f: Seq<Seq<Piece>>) -> bool {
    forall|i: int, j: int|
        0 <= i < f.len() && 0 <= j < f[i].len() ==> ascii_display(#[trigger] f[i][j])
}

proof fn lemma_spaces_prefix(m: nat, n: nat)
    requires
        m <= n,
    ensures
        spaces(m).is_prefix_of(spaces(n)),
{
    assert(spaces(m) =~= spaces(n).subrange(0, m as int));
}

proof fn lemma_prefix_append(a: Seq<u8>, b: Seq<u8>, c: Seq<u8>)
    requires
        b.is_prefix_of(c),
    ensures
        (a + b).is_prefix_of(a + c),
{
    assert((a + b) =~= (a + c).subrange(0, (a + b).len() as int));
}

proof fn lemma_prefix_extend(a: Seq<u8>, b: Seq<u8>, c: Seq<u8>)
    requires
        a.is_prefix_of(b),
    ensures
        a.is_prefix_of(b + c),
{
    assert(a =~= (b + c).subrange(0, a.len() as int));
}

proof fn lemma_char_floor_ascii(s: Seq<u8>, i: nat)
    requires
        i < s.len(),
        forall|k: int| 0 <= k < s.len() ==> #[trigger] s[k] < 0x80,
    ensures
        char_floor(s, i) == i,
{
    assert(s[i as int] < 0x80);
}

/// Verbatim ASCII text written with more room: what the smaller budget wrote
/// is a prefix; it runs out of room only if the smaller one did; and where the
/// smaller one did not, both wrote the same or the smaller one filled its budget.
proof fn lemma_leaf_monotone(p: Piece, b1: nat, b2: nat)
    requires
        ascii_display(p),
        b1 <= b2,
    ensures
        leaf_output(p, b1).is_prefix_of(leaf_output(p, b2)),
        leaf_truncated(p, b2) ==> leaf_truncated(p, b1),
        !leaf_truncated(p, b1) ==> leaf_output(p, b1) == leaf_output(p, b2) || leaf_output(
            p,
            b1,
        ).len() == b1,
{
    let t = p.text;
    if p.left > b1 {
        if p.left > b2 {
            lemma_spaces_prefix(b1, b2);
        } else {
            lemma_spaces_prefix(b1, p.left);
            let b = (b2 - p.left) as nat;
            lemma_prefix_extend(
                spaces(b1),
                spaces(p.left),
                body(p, b) + spaces(min_nat(p.right, (b - body(p, b).len()) as nat)),
            );
            assert(leaf_output(p, b2) =~= spaces(p.left) + (body(p, b) + spaces(
                min_nat(p.right, (b - body(p, b).len()) as nat),
            )));
        }
    } else {
        let c1 = (b1 - p.left) as nat;
        let c2 = (b2 - p.left) as nat;
        assert(t.take(t.len() as int) =~= t);
        if t.len() <= c1 {
            assert(body(p, c1) == t);
            assert(body(p, c2) == t);
            let m1 = min_nat(p.right, (c1 - t.len()) as nat);
            let m2 = min_nat(p.right, (c2 - t.len()) as nat);
            lemma_spaces_prefix(m1, m2);
            lemma_prefix_append(spaces(p.left) + t, spaces(m1), spaces(m2));
        } else {
            lemma_char_floor_ascii(t, c1);
            assert(body(p, c1) == t.take(c1 as int));
            assert(spaces(0) =~= Seq::<u8>::empty());
            assert(leaf_output(p, b1) =~= spaces(p.left) + t.take(c1 as int));
            if t.len() <= c2 {
                assert(body(p, c2) == t);
            } else {
                lemma_char_floor_ascii(t, c2);
                assert(body(p, c2) == t.take(c2 as int));
            }
            assert(leaf_output(p, b1) =~= leaf_output(p, b2).subrange(
                0,
                leaf_output(p, b1).len() as int,
            ));
        }
    }
}

/// Two render passes at capacities `c1 <= c2` over the same descriptors: the
/// first has written a prefix of what the second has, and while it still goes
/// on, it has either written the same or filled its capacity.
pub open spec fn passes_agree(s1: Progress, s2: Progress, c1: nat, c2: nat) -> bool {
    &&& !(s1 is Overflow)
    &&& !(s2 is Overflow)
    &&& s1.text().len() <= c1
    &&& s2.text().len() <= c2
    &&& s1.text().is_prefix_of(s2.text())
    &&& s1 is Going ==> s1 == s2 || s1.text().len() == c1
}

proof fn lemma_step_extends(st: Progress, p: Piece, cap: nat)
    requires
        !(st is Overflow),
        st.text().len() <= cap,
        p.text.len() <= usize::MAX,
    ensures
        !(step(st, p, cap, true) is Overflow),
        step(st, p, cap, true).text().len() <= cap,
        st.text().is_prefix_of(step(st, p, cap, true).text()),
{
    if let Progress::Going(o) = st {
        lemma_leaf_output_len(p, (cap - o.len()) as nat);
        assert(o =~= (o + leaf_output(p, (cap - o.len()) as nat)).subrange(0, o.len() as int));
    } else {
        assert(st.text() =~= st.text().subrange(0, st.text().len() as int));
    }
}

proof fn lemma_step_agree(s1: Progress, s2: Progress, p: Piece, c1: nat, c2: nat)
    requires
        c1 <= c2,
        ascii_display(p),
        passes_agree(s1, s2, c1, c2),
    ensures
        passes_agree(step(s1, p, c1, true), step(s2, p, c2, true), c1, c2),
{
    let n1 = step(s1, p, c1, true);
    let n2 = step(s2, p, c2, true);
    lemma_step_extends(s1, p, c1);
    lemma_step_extends(s2, p, c2);
    if s1 is Going && s1 == s2 {
        let o = s1.text();
        let b1 = (c1 - o.len()) as nat;
        let b2 = (c2 - o.len()) as nat;
        lemma_leaf_monotone(p, b1, b2);
        lemma_prefix_append(o, leaf_output(p, b1), leaf_output(p, b2));
    } else if s1 is Going {
        let o = s1.text();
        assert(o.len() == c1);
        if p.left == 0 {
            if p.text.len() > 0 {
                lemma_char_floor_ascii(p.text, 0);
            }
            assert(p.text.take(0) =~= Seq::<u8>::empty());
        }
        assert(spaces(0) =~= Seq::<u8>::empty());
        assert(leaf_output(p, 0) =~= Seq::<u8>::empty());
        assert(n1.text() =~= o);
        assert(s2.text().is_prefix_of(n2.text()));
        assert(n1.text() =~= n2.text().subrange(0, n1.text().len() as int));
    } else {
        assert(n1 == s1);
        assert(n1.text() =~= n2.text().subrange(0, n1.text().len() as int));
    }
}

proof fn lemma_run_group_agree(
    s1: Progress,
    s2: Progress,
    g: Seq<Piece>,
    c1: nat,
    c2: nat,
    n: nat,
)
    requires
        c1 <= c2,
        n <= g.len(),
        forall|j: int| 0 <= j < g.len() ==> ascii_display(#[trigger] g[j]),
        passes_agree(s1, s2, c1, c2),
    ensures
        passes_agree(run_group(s1, g, c1, true, n), run_group(s2, g, c2, true, n), c1, c2),
    decreases n,
{
    if n > 0 {
        lemma_run_group_agree(s1, s2, g, c1, c2, (n - 1) as nat);
        lemma_step_agree(
            run_group(s1, g, c1, true, (n - 1) as nat),
            run_group(s2, g, c2, true, (n - 1) as nat),
            g[n - 1],
            c1,
            c2,
        );
    }
}

proof fn lemma_run_forest_agree(f: Seq<Seq<Piece>>, c1: nat, c2: nat, k: nat)
    requires
        c1 <= c2,
        k <= f.len(),
        ascii_display_forest(f),
    ensures
        passes_agree(run_forest(f, c1, true, k), run_forest(f, c2, true, k), c1, c2),
    decreases k,
{
    if k == 0 {
        assert(Seq::<u8>::empty() =~= Seq::<u8>::empty().subrange(0, 0));
    } else {
        lemma_run_forest_agree(f, c1, c2, (k - 1) as nat);
        let g = f[k - 1];
        assert forall|j: int| 0 <= j < g.len() implies ascii_display(#[trigger] g[j]) by {
            assert(ascii_display(f[k - 1][j]));
        }
        lemma_run_group_agree(
            run_forest(f, c1, true, (k - 1) as nat),
            run_forest(f, c2, true, (k - 1) as nat),
            g,
            c1,
            c2,
            g.len(),
        );
    }
}

/// For verbatim ASCII descriptors, the hard-capped message at a capacity is a
/// prefix of (or equal to) the hard-capped message at any larger capacity.
pub proof fn lemma_capacity_monotone(f: Seq<Seq<Piece>>, c1: nat, c2: nat)
    requires
        c1 <= c2,
        ascii_display_forest(f),
    ensures
        render(f, c1, true).text().is_prefix_of(render(f, c2, true).text()),
{
    lemma_run_forest_agree(f, c1, c2, f.len());
}

proof fn lemma_step_fills(st: Progress, p: Piece, cap: nat)
    requires
        ascii_display(p),
        !(st is Overflow),
        st.text().len() <= cap,
        st is Stopped ==> st.text().len() == cap,
    ensures
        step(st, p, cap, true) is Stopped ==> step(st, p, cap, true).text().len() == cap,
{
    if let Progress::Going(o) = st {
        let budget = (cap - o.len()) as nat;
        if leaf_truncated(p, budget) && p.left <= budget {
            let c = (budget - p.left) as nat;
            lemma_char_floor_ascii(p.text, c);
            assert(spaces(0) =~= Seq::<u8>::empty());
            assert(leaf_output(p, budget).len() == budget);
        }
    }
}

proof fn lemma_run_group_fills(st: Progress, g: Seq<Piece>, cap: nat, n: nat)
    requires
        n <= g.len(),
        forall|j: int| 0 <= j < g.len() ==> ascii_display(#[trigger] g[j]),
        !(st is Overflow),
        st.text().len() <= cap,
        st is Stopped ==> st.text().len() == cap,
    ensures
        !(run_group(st, g, cap, true, n) is Overflow),
        run_group(st, g, cap, true, n).text().len() <= cap,
        run_group(st, g, cap, true, n) is Stopped ==> run_group(st, g, cap, true, n).text().len()
            == cap,
    decreases n,
{
    if n > 0 {
        lemma_run_group_fills(st, g, cap, (n - 1) as nat);
        let s = run_group(st, g, cap, true, (n - 1) as nat);
        lemma_step_extends(s, g[n - 1], cap);
        lemma_step_fills(s, g[n - 1], cap);
    }
}

proof fn lemma_run_forest_fills(f: Seq<Seq<Piece>>, cap: nat, k: nat)
    requires
        k <= f.len(),
        ascii_display_forest(f),
    ensures
        !(run_forest(f, cap, true, k) is Overflow),
        run_forest(f, cap, true, k).text().len() <= cap,
        run_forest(f, cap, true, k) is Stopped ==> run_forest(f, cap, true, k).text().len() == cap,
    decreases k,
{
    if k > 0 {
        lemma_run_forest_fills(f, cap, (k - 1) as nat);
        let g = f[k - 1];
        assert forall|j: int| 0 <= j < g.len() implies ascii_display(#[trigger] g[j]) by {
            assert(ascii_display(f[k - 1][j]));
        }
        lemma_run_group_fills(run_forest(f, cap, true, (k - 1) as nat), g, cap, g.len());
    }
}

/// For verbatim ASCII descriptors, a message cut at the hard cap fills the
/// capacity exactly.
pub proof fn lemma_hard_cap_fills(f: Seq<Seq<Piece>>, cap: nat)
    requires
        ascii_display_forest(f),
    ensures
        render(f, cap, true) is Stopped ==> render(f, cap, true).text().len() == cap,
{
    lemma_run_forest_fills(f, cap, f.len());
}

/// A piece written with unlimited room: padding, text, padding.
pub open spec fn piece_text(p: Piece) -> Seq<u8> {
    spaces(p.left) + p.text + spaces(p.right)
}

/// The first `n` pieces of a group written with unlimited room.
pub open spec fn group_text(g: Seq<Piece>, n: nat) -> Seq<u8>
    decreases n,
{
    if n == 0 {
        Seq::empty()
    } else {
        group_text(g, (n - 1) as nat) + piece_text(g[n - 1])
    }
}

/// The first `k` groups of a forest written with unlimited room.
pub open spec fn forest_text(f: Seq<Seq<Piece>>, k: nat) -> Seq<u8>
    decreases k,
{
    if k == 0 {
        Seq::empty()
    } else {
        forest_text(f, (k - 1) as nat) + group_text(f[k - 1], f[k - 1].len())
    }
}

/// The whole message written with unlimited room.
pub open spec fn full_text(f: Seq<Seq<Piece>>) -> Seq<u8> {
    forest_text(f, f.len())
}

proof fn lemma_leaf_fits(p: Piece, budget: nat)
    requires
        !p.quoted,
        piece_text(p).len() <= budget,
    ensures
        leaf_output(p, budget) == piece_text(p),
        !leaf_truncated(p, budget),
{
    let b = (budget - p.left) as nat;
    assert(outcome(p, b) == WasTruncated::No);
    assert(p.text.take(p.text.len() as int) =~= p.text);
    assert(body(p, b) == p.text);
}

proof fn lemma_run_group_full(o: Seq<u8>, g: Seq<Piece>, cap: nat, hard_cap: bool, n: nat)
    requires
        n <= g.len(),
        forall|j: int| 0 <= j < g.len() ==> !(#[trigger] g[j]).quoted,
        o.len() + group_text(g, n).len() <= cap,
    ensures
        run_group(Progress::Going(o), g, cap, hard_cap, n) == Progress::Going(o + group_text(g, n)),
    decreases n,
{
    if n == 0 {
        assert(o + Seq::<u8>::empty() =~= o);
    } else {
        let prev = group_text(g, (n - 1) as nat);
        lemma_run_group_full(o, g, cap, hard_cap, (n - 1) as nat);
        lemma_leaf_fits(g[n - 1], (cap - (o + prev).len()) as nat);
        assert(o + prev + piece_text(g[n - 1]) =~= o + group_text(g, n));
    }
}

proof fn lemma_run_forest_full(f: Seq<Seq<Piece>>, cap: nat, hard_cap: bool, k: nat)
    requires
        k <= f.len(),
        ascii_display_forest(f),
        forest_text(f, k).len() <= cap,
    ensures
        run_forest(f, cap, hard_cap, k) == Progress::Going(forest_text(f, k)),
    decreases k,
{
    if k > 0 {
        let g = f[k - 1];
        lemma_run_forest_full(f, cap, hard_cap, (k - 1) as nat);
        assert forall|j: int| 0 <= j < g.len() implies !(#[trigger] g[j]).quoted by {
            assert(ascii_display(f[k - 1][j]));
        }
        lemma_run_group_full(forest_text(f, (k - 1) as nat), g, cap, hard_cap, g.len());
    }
}

/// For verbatim ASCII descriptors, the pass at the hard cap writes the whole
/// message cut at the capacity: all of it when it fits, else exactly its first
/// `cap` bytes.
pub proof fn lemma_hard_cap_is_cut(f: Seq<Seq<Piece>>, cap: nat)
    requires
        ascii_display_forest(f),
    ensures
        render(f, cap, true).text() == full_text(f).take(
            min_nat(cap, full_text(f).len()) as int,
        ),
{
    let full = full_text(f);
    let big = if cap < full.len() {
        full.len()
    } else {
        cap
    };
    lemma_run_forest_full(f, big, true, f.len());
    lemma_run_forest_agree(f, cap, big, f.len());
    lemma_hard_cap_fills(f, cap);
    let t = render(f, cap, true).text();
    assert(t =~= full.take(min_nat(cap, full.len()) as int));
}

} // verus!
