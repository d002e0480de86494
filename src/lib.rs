//! Bounded rendering of value descriptors into a diagnostic message.
//!
//! A message is an ordered list of groups of descriptors. Each descriptor is
//! written with its padding, verbatim or quoted with escapes, into a buffer of
//! fixed capacity; a pass that runs out of room is retried at a larger capacity,
//! and the last capacity truncates the message instead of failing.
pub mod escape;
pub mod fmt;
pub mod laws;
pub mod panic_val;
pub mod utils;
pub mod writer;

pub use crate::fmt::{FmtArg, FmtKind, IsLastField, ShortString};
pub use crate::panic_val::{IntVal, PanicVal};
pub use crate::utils::WasTruncated;
pub use crate::writer::{
    concat_panic, format_panic_message, make_panic_string, NotEnoughSpace, MAX_PANIC_MSG_LEN,
};
