//! The debug console: a port that shows every byte written to it.
//!
//! Writing to a port is the kernel's business. What is decided here is which
//! bytes go out for a piece of text, and in which order.

use vstd::prelude::*;
use vstd::string::StringSliceAdditionalSpecFns;

verus! {

/// The I/O port on which the emulator's debug console listens.
pub const QEMU_DEBUGCON_PORT: u16 = 0xe9;

/// The debug console as a sink for text.
#[derive(Clone, Copy, Debug, Default)]
pub struct Printer;

impl Printer {
    /// The bytes that go to `QEMU_DEBUGCON_PORT` for `s`, first to last: the
    /// bytes of `s` as they stand, none added and none left out.
    pub fn write_str<'s>(&mut self, s: &'s str) -> (bytes: &'s [u8])
        ensures
            bytes@ == s.spec_bytes(),
    {
        s.as_bytes()
    }
}

} // verus!
