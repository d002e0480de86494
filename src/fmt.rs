//! Formatting options and the short inline text used for generated punctuation.
use vstd::prelude::*;
use vstd::string::StringSliceAdditionalSpecFns;

verus! {

/// How a value's text is written.
#[derive(Clone, Copy, PartialEq, Eq, Structural, Debug)]
pub enum FmtKind {
    /// Verbatim.
    Display,
    /// Between quotes, with special bytes escaped.
    Debug,
}

/// Formatting options handed to the constructors of descriptors.
#[derive(Clone, Copy, PartialEq, Eq, Structural, Debug)]
pub struct FmtArg {
    /// Spaces of indentation used for padding.
    pub indentation: u8,
    /// Whether multi-line ("alternate") formatting was asked for.
    pub is_alternate: bool,
    pub fmt_kind: FmtKind,
}

impl FmtArg {
    /// Verbatim, single-line, no indentation.
    pub fn display() -> (r: FmtArg)
        ensures
            r == (FmtArg { indentation: 0, is_alternate: false, fmt_kind: FmtKind::Display }),
    {
        FmtArg { indentation: 0, is_alternate: false, fmt_kind: FmtKind::Display }
    }

    /// Quoted, single-line, no indentation.
    pub fn debug() -> (r: FmtArg)
        ensures
            r == (FmtArg { indentation: 0, is_alternate: false, fmt_kind: FmtKind::Debug }),
    {
        FmtArg { indentation: 0, is_alternate: false, fmt_kind: FmtKind::Debug }
    }

    /// Verbatim, multi-line, no indentation.
    pub fn alt_display() -> (r: FmtArg)
        ensures
            r == (FmtArg { indentation: 0, is_alternate: true, fmt_kind: FmtKind::Display }),
    {
        FmtArg { indentation: 0, is_alternate: true, fmt_kind: FmtKind::Display }
    }

    /// Quoted, multi-line, no indentation.
    pub fn alt_debug() -> (r: FmtArg)
        ensures
            r == (FmtArg { indentation: 0, is_alternate: true, fmt_kind: FmtKind::Debug }),
    {
        FmtArg { indentation: 0, is_alternate: true, fmt_kind: FmtKind::Debug }
    }

    /// The same options with the given indentation.
    pub fn with_indentation(self, indentation: u8) -> (r: FmtArg)
        ensures
            r == (FmtArg { indentation, ..self }),
    {
        FmtArg { indentation, ..self }
    }
}

/// Whether a field is the last one of its aggregate.
#[derive(Clone, Copy, PartialEq, Eq, Structural, Debug)]
pub enum IsLastField {
    Yes,
    No,
}

/// The number of bytes a `ShortString` can hold.
pub const SHORT_STRING_CAP: usize = 16;

/// A short text held inline, for separators and punctuation.
#[derive(Clone, Copy)]
pub struct ShortString {
    buffer: [u8; 16],
    len: u8,
}

impl View for ShortString {
    type V = Seq<u8>;

    closed spec fn view(&self) -> Seq<u8> {
        self.buffer@.take(self.len as int)
    }
}

impl ShortString {
    #[verifier::type_invariant]
    spec fn inv(&self) -> bool {
        self.len <= 16
    }

    /// The empty text.
    pub fn empty() -> (r: ShortString)
        ensures
            r@ == Seq::<u8>::empty(),
    {
        let empty: [u8; 0] = [];
        let r = ShortString::from_parts(empty.as_slice(), empty.as_slice());
        assert(empty@ + empty@ =~= Seq::<u8>::empty());
        r
    }

    /// The text of `s` followed by the bytes of `tail`.
    fn from_parts(s: &[u8], tail: &[u8]) -> (r: ShortString)
        requires
            s@.len() + tail@.len() <= 16,
        ensures
            r@ == s@ + tail@,
    {
        let mut buffer = [0u8; 16];
        let mut i: usize = 0;
        while i < s.len()
            invariant
                i <= s@.len(),
                s@.len() + tail@.len() <= 16,
                buffer@.len() == 16,
                buffer@.take(i as int) == s@.take(i as int),
            decreases s@.len() - i,
        {
            buffer[i] = s[i];
            i += 1;
            assert(buffer@.take(i as int) =~= s@.take(i as int));
        }
        let mut j: usize = 0;
        while j < tail.len()
            invariant
                i == s@.len(),
                j <= tail@.len(),
                s@.len() + tail@.len() <= 16,
                buffer@.len() == 16,
                buffer@.take(i + j) == s@ + tail@.take(j as int),
            decreases tail@.len() - j,
        {
            let ghost before = buffer@;
            buffer[i + j] = tail[j];
            assert(buffer@ == before.update(i + j, tail@[j as int]));
            assert(before.take(i + j) == s@ + tail@.take(j as int));
            j += 1;
            assert forall|k: int| 0 <= k < i + j implies buffer@[k] == (s@ + tail@.take(
                j as int,
            ))[k] by {
                if k < i + j - 1 {
                    assert(before.take(i + j - 1)[k] == before[k]);
                }
            }
            assert(buffer@.take(i + j) =~= s@ + tail@.take(j as int));
        }
        assert(tail@.take(j as int) =~= tail@);
        ShortString { buffer, len: (i + j) as u8 }
    }

    /// The text of `s`.
    pub fn new(s: &str) -> (r: ShortString)
        requires
            s.spec_bytes().len() <= 16,
        ensures
            r@ == s.spec_bytes(),
    {
        let empty: [u8; 0] = [];
        let r = ShortString::from_parts(s.as_bytes(), empty.as_slice());
        assert(s.spec_bytes() + empty@ =~= s.spec_bytes());
        r
    }

    /// The text of `s` followed by the byte `b`.
    pub fn concat_byte(s: &str, b: u8) -> (r: ShortString)
        requires
            s.spec_bytes().len() + 1 <= 16,
        ensures
            r@ == s.spec_bytes().push(b),
    {
        let tail = [b];
        let r = ShortString::from_parts(s.as_bytes(), tail.as_slice());
        assert(s.spec_bytes() + tail@ =~= s.spec_bytes().push(b));
        r
    }

    pub fn len(&self) -> (r: usize)
        ensures
            r == self@.len(),
    {
        proof {
            use_type_invariant(self);
        }
        self.len as usize
    }

    pub fn as_bytes(&self) -> (r: &[u8])
        ensures
            r@ == self@,
    {
        proof {
            use_type_invariant(self);
        }
        &self.buffer[0..self.len as usize]
    }
}

} // verus!
