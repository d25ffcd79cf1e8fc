//! The library's error value and the outcome of a device control call.
use vstd::prelude::*;

verus! {

/// An error that carries a human-readable message.
#[derive(Debug)]
pub struct AfErr {
    msg: String,
}

impl View for AfErr {
    type V = Seq<char>;

    closed spec fn view(&self) -> Seq<char> {
        self.msg@
    }
}

impl AfErr {
    /// An error with the given message.
    pub fn new(msg: String) -> (r: AfErr)
        ensures
            r@ == msg@,
    {
        AfErr { msg }
    }

    /// The error for a number that does not fit the width of its field.
    pub fn overflow() -> (r: AfErr)
        ensures
            r@ == "Integer overflow/underflow (TryFromIntError)."@,
    {
        AfErr { msg: String::from_str("Integer overflow/underflow (TryFromIntError).") }
    }

    /// The message.
    pub fn message(&self) -> (r: &str)
        ensures
            r@ == self@,
    {
        self.msg.as_str()
    }
}

/// What a device control call reports back.
pub struct ControlResult {
    out_buffer_written: u32,
}

impl View for ControlResult {
    type V = u32;

    closed spec fn view(&self) -> u32 {
        self.out_buffer_written
    }
}

impl ControlResult {
    /// The result of a call after which the device wrote `out_buffer_written` bytes.
    pub fn new(out_buffer_written: u32) -> (r: ControlResult)
        ensures
            r@ == out_buffer_written,
    {
        ControlResult { out_buffer_written }
    }

    /// How many bytes the device wrote into the output buffer.
    pub fn out_buffer_written(&self) -> (r: u32)
        ensures
            r == self@,
    {
        self.out_buffer_written
    }
}

} // verus!
