//! Value descriptors: one renderable unit each, with padding and rendering mode.
use vstd::prelude::*;
use vstd::string::StringSliceAdditionalSpecFns;
use crate::fmt::{FmtArg, FmtKind, IsLastField, ShortString};
use crate::utils::{Sign, WasTruncated, truncated_str_len, truncated_debug_str_len, display_outcome, quoted_outcome};

verus! {

/// ASCII decimal digits of `n`, most significant first, without leading zeros.
pub open spec fn decimal(n: nat) -> Seq<u8>
    decreases n,
{
    if n < 10 {
        seq![(0x30 + n) as u8]
    } else {
        decimal(n / 10).push((0x30 + n % 10) as u8)
    }
}

/// Decimal text of an integer given by sign and magnitude.
pub open spec fn signed_decimal(negative: bool, magnitude: nat) -> Seq<u8> {
    if negative {
        seq![0x2du8] + decimal(magnitude)
    } else {
        decimal(magnitude)
    }
}

proof fn lemma_decimal_len_monotone(m: nat, n: nat)
    requires
        m <= n,
    ensures
        decimal(m).len() <= decimal(n).len(),
    decreases n,
{
    if m >= 10 {
        lemma_decimal_len_monotone(m / 10, n / 10);
    }
}

proof fn lemma_decimal_len_u128(n: u128)
    ensures
        decimal(n as nat).len() <= 39,
{
    lemma_decimal_len_monotone(n as nat, u128::MAX as nat);
    reveal_with_fuel(decimal, 40);
    assert(decimal(u128::MAX as nat).len() == 39);
}

/// Decimal text of an integer, held inline in the last bytes of a buffer.
#[derive(Clone, Copy)]
pub struct IntVal {
    buffer: [u8; 40],
    start: u8,
}

impl View for IntVal {
    type V = Seq<u8>;

    closed spec fn view(&self) -> Seq<u8> {
        self.buffer@.subrange(self.start as int, 40)
    }
}

impl IntVal {
    #[verifier::type_invariant]
    spec fn inv(&self) -> bool {
        self.start < 40
    }

    pub fn from_u128(n: u128, f: FmtArg) -> (r: IntVal)
        ensures
            r@ == decimal(n as nat),
    {
        IntVal::new(Sign::Positive, n, f)
    }

    pub fn from_i128(n: i128, f: FmtArg) -> (r: IntVal)
        ensures
            r@ == signed_decimal(n < 0, (if n < 0 { -n } else { n as int }) as nat),
    {
        if n < 0 {
            let magnitude: u128 = (-(n + 1)) as u128 + 1;
            IntVal::new(Sign::Negative, magnitude, f)
        } else {
            IntVal::new(Sign::Positive, n as u128, f)
        }
    }

    /// Digits are generated least significant first into the tail of the buffer.
    pub fn new(sign: Sign, n: u128, _f: FmtArg) -> (r: IntVal)
        ensures
            r@ == signed_decimal(sign == Sign::Negative, n as nat),
    {
        let mut start: usize = 40;
        let mut buffer = [0u8; 40];
        let mut m: u128 = n;
        proof {
            lemma_decimal_len_u128(n);
            assert(buffer@.subrange(40, 40) =~= Seq::<u8>::empty());
            assert(decimal(n as nat) + Seq::<u8>::empty() =~= decimal(n as nat));
        }
        loop
            invariant_except_break
                decimal(n as nat) == decimal(m as nat) + buffer@.subrange(start as int, 40),
                (40 - start) + decimal(m as nat).len() <= 39,
            invariant
                buffer@.len() == 40,
                start <= 40,
            ensures
                1 <= start < 40,
                decimal(n as nat) == buffer@.subrange(start as int, 40),
            decreases m,
        {
            let ghost before = buffer@;
            let ghost old_m = m;
            start -= 1;
            buffer[start] = 0x30 + (m % 10) as u8;
            m = m / 10;
            proof {
                assert(buffer@.subrange(start as int, 40) =~= seq![buffer@[start as int]]
                    + before.subrange(start + 1, 40));
                if old_m >= 10 {
                    assert(decimal(old_m as nat) == decimal(m as nat).push(
                        (0x30 + old_m % 10) as u8,
                    ));
                    assert(decimal(m as nat) + buffer@.subrange(start as int, 40) =~= decimal(
                        old_m as nat,
                    ) + before.subrange(start + 1, 40));
                } else {
                    assert(decimal(old_m as nat) =~= seq![buffer@[start as int]]);
                    assert(decimal(n as nat) =~= buffer@.subrange(start as int, 40));
                }
            }
            if m == 0 {
                break;
            }
        }
        if let Sign::Negative = sign {
            let ghost before = buffer@;
            start -= 1;
            buffer[start] = 0x2d;
            assert(buffer@.subrange(start as int, 40) =~= seq![0x2du8] + before.subrange(
                start + 1,
                40,
            ));
        }
        IntVal { buffer, start: start as u8 }
    }

    pub fn as_bytes(&self) -> (r: &[u8])
        ensures
            r@ == self@,
    {
        proof {
            use_type_invariant(self);
        }
        &self.buffer[self.start as usize..40]
    }
}

/// What a descriptor's text is made of.
#[derive(Clone, Copy)]
pub enum PanicVariant<'a> {
    Str(&'a str),
    ShortString(ShortString),
    Int(IntVal),
}

impl<'a> PanicVariant<'a> {
    pub open spec fn text(&self) -> Seq<u8> {
        match *self {
            PanicVariant::Str(s) => s.spec_bytes(),
            PanicVariant::ShortString(s) => s@,
            PanicVariant::Int(i) => i@,
        }
    }
}

/// The model of a descriptor: spaces before and after, the text, and whether
/// the text is written between quotes with escapes.
pub struct Piece {
    pub left: nat,
    pub right: nat,
    pub text: Seq<u8>,
    pub quoted: bool,
}

/// One renderable unit.
#[derive(Clone, Copy)]
pub struct PanicVal<'a> {
    var: PanicVariant<'a>,
    leftpad: u8,
    rightpad: u8,
    fmt_kind: FmtKind,
}

impl<'a> View for PanicVal<'a> {
    type V = Piece;

    /// Integers are always written verbatim.
    closed spec fn view(&self) -> Piece {
        Piece {
            left: self.leftpad as nat,
            right: self.rightpad as nat,
            text: self.var.text(),
            quoted: self.fmt_kind == FmtKind::Debug && !(self.var is Int),
        }
    }
}

impl<'a> PanicVal<'a> {
    /// Writes nothing.
    pub fn empty() -> (r: PanicVal<'static>)
        ensures
            r@ == (Piece { left: 0, right: 0, text: Seq::empty(), quoted: false }),
    {
        PanicVal::write_short_str(ShortString::empty())
    }

    /// How many spaces are printed before this.
    pub fn leftpad(&self) -> (r: u8)
        ensures
            r == self@.left,
    {
        self.leftpad
    }

    /// How many spaces are printed after this.
    pub fn rightpad(&self) -> (r: u8)
        ensures
            r == self@.right,
    {
        self.rightpad
    }

    /// Sets the amount of spaces printed before this to `f.indentation`.
    pub fn with_leftpad(self, f: FmtArg) -> (r: Self)
        ensures
            r@ == (Piece { left: f.indentation as nat, ..self@ }),
    {
        let mut this = self;
        this.leftpad = f.indentation;
        this
    }

    /// Sets the amount of spaces printed after this to `f.indentation`.
    pub fn with_rightpad(self, f: FmtArg) -> (r: Self)
        ensures
            r@ == (Piece { right: f.indentation as nat, ..self@ }),
    {
        let mut this = self;
        this.rightpad = f.indentation;
        this
    }

    /// Sets the amount of spaces printed before this.
    pub fn set_leftpad(self, f: FmtArg) -> (r: Self)
        ensures
            r@ == (Piece { left: f.indentation as nat, ..self@ }),
    {
        self.with_leftpad(f)
    }

    /// Sets the amount of spaces printed after this.
    pub fn set_rightpad(self, f: FmtArg) -> (r: Self)
        ensures
            r@ == (Piece { right: f.indentation as nat, ..self@ }),
    {
        self.with_rightpad(f)
    }

    /// Outputs the contents of `string` verbatim.
    pub fn write_str(string: &'a str) -> (r: Self)
        ensures
            r@ == (Piece { left: 0, right: 0, text: string.spec_bytes(), quoted: false }),
    {
        PanicVal {
            var: PanicVariant::Str(string),
            leftpad: 0,
            rightpad: 0,
            fmt_kind: FmtKind::Display,
        }
    }

    /// Outputs the contents of a [`ShortString`] verbatim.
    pub fn write_short_str(string: ShortString) -> (r: Self)
        ensures
            r@ == (Piece { left: 0, right: 0, text: string@, quoted: false }),
    {
        PanicVal {
            var: PanicVariant::ShortString(string),
            leftpad: 0,
            rightpad: 0,
            fmt_kind: FmtKind::Display,
        }
    }

    /// Outputs `string` verbatim or quoted, as `f` says.
    pub fn from_str(string: &'a str, f: FmtArg) -> (r: Self)
        ensures
            r@ == (Piece {
                left: 0,
                right: 0,
                text: string.spec_bytes(),
                quoted: f.fmt_kind == FmtKind::Debug,
            }),
    {
        PanicVal::from_variant(PanicVariant::Str(string), f)
    }

    /// Outputs the decimal text of `n`.
    pub fn from_u128(n: u128, f: FmtArg) -> (r: Self)
        ensures
            r@ == (Piece { left: 0, right: 0, text: decimal(n as nat), quoted: false }),
    {
        PanicVal::from_variant(PanicVariant::Int(IntVal::from_u128(n, f)), f)
    }

    /// Outputs the decimal text of `n`, with a leading `-` when it is negative.
    pub fn from_i128(n: i128, f: FmtArg) -> (r: Self)
        ensures
            r@ == (Piece {
                left: 0,
                right: 0,
                text: signed_decimal(n < 0, (if n < 0 { -n } else { n as int }) as nat),
                quoted: false,
            }),
    {
        PanicVal::from_variant(PanicVariant::Int(IntVal::from_i128(n, f)), f)
    }

    /// The separator written after a field of an aggregate: followed by a space,
    /// or in alternate mode by a newline and the indentation of the next field.
    pub fn from_element_separator(separator: &str, is_last_field: IsLastField, f: FmtArg) -> (r:
        Self)
        requires
            !(is_last_field == IsLastField::Yes && !f.is_alternate)
                ==> separator.spec_bytes().len() <= 12,
        ensures
            r@.left == 0,
            !r@.quoted,
            r@.text == if is_last_field == IsLastField::Yes && !f.is_alternate {
                Seq::<u8>::empty()
            } else if !f.is_alternate {
                separator.spec_bytes().push(0x20)
            } else {
                separator.spec_bytes().push(0x0a)
            },
            r@.right == if is_last_field == IsLastField::No && f.is_alternate {
                f.indentation as nat
            } else {
                0
            },
    {
        let (concat, rightpad) = match (is_last_field, f.is_alternate) {
            (IsLastField::No, false) => (ShortString::concat_byte(separator, 0x20), 0),
            (IsLastField::Yes, false) => (ShortString::empty(), 0),
            (IsLastField::No, true) => (ShortString::concat_byte(separator, 0x0a), f.indentation),
            (IsLastField::Yes, true) => (ShortString::concat_byte(separator, 0x0a), 0),
        };
        PanicVal {
            var: PanicVariant::ShortString(concat),
            leftpad: 0,
            rightpad,
            fmt_kind: FmtKind::Display,
        }
    }

    fn from_variant(var: PanicVariant<'a>, f: FmtArg) -> (r: Self)
        ensures
            r@ == (Piece {
                left: 0,
                right: 0,
                text: var.text(),
                quoted: f.fmt_kind == FmtKind::Debug && !(var is Int),
            }),
    {
        PanicVal { var, leftpad: 0, rightpad: 0, fmt_kind: f.fmt_kind }
    }

    /// The bytes of the text.
    pub fn content(&self) -> (r: &[u8])
        ensures
            r@ == self@.text,
    {
        match &self.var {
            PanicVariant::Str(s) => s.as_bytes(),
            PanicVariant::ShortString(s) => s.as_bytes(),
            PanicVariant::Int(i) => i.as_bytes(),
        }
    }

    /// Whether the text is written between quotes.
    pub fn is_quoted(&self) -> (r: bool)
        ensures
            r == self@.quoted,
    {
        match self.var {
            PanicVariant::Int(_) => false,
            _ => self.fmt_kind == FmtKind::Debug,
        }
    }

    /// Where this descriptor stands with `truncate_to` bytes left: the spaces
    /// written before it, its text, whether that is quoted, and how much of the
    /// text fits. When the left padding alone does not fit, no text is written.
    pub fn layout(&self, truncate_to: usize) -> (r: (usize, &[u8], bool, WasTruncated))
        ensures
            self@.left > truncate_to ==> r.0 == truncate_to && r.3 == WasTruncated::Yes(0),
            self@.left <= truncate_to ==> {
                &&& r.0 == self@.left
                &&& r.1@ == self@.text
                &&& r.2 == self@.quoted
                &&& r.3 == if self@.quoted {
                    quoted_outcome(self@.text, (truncate_to - self@.left) as nat)
                } else {
                    display_outcome(self@.text, (truncate_to - self@.left) as nat)
                }
            },
    {
        let leftpad = self.leftpad as usize;
        let string = self.content();
        let quoted = self.is_quoted();
        if leftpad > truncate_to {
            return (truncate_to, string, quoted, WasTruncated::Yes(0));
        }
        let rem = truncate_to - leftpad;
        let was_trunc = if quoted {
            truncated_debug_str_len(string, rem)
        } else {
            truncated_str_len(string, rem)
        };
        (leftpad, string, quoted, was_trunc)
    }

    pub fn to_panicvals(&self, _f: FmtArg) -> (r: [PanicVal<'a>; 1])
        ensures
            r@ == seq![*self],
    {
        [*self]
    }

    pub fn to_panicval(&self, _f: FmtArg) -> (r: PanicVal<'a>)
        ensures
            r == *self,
    {
        *self
    }
}

} // verus!
