//! The error type shared by the whole crate: a plain message carrier.

use vstd::prelude::*;

verus! {

/// Error returned by every fallible operation of the crate.
#[derive(Debug)]
pub struct ProxyErr {
    message: String,
}

impl View for ProxyErr {
    type V = Seq<char>;

    /// An error is, for specification purposes, its message.
    closed spec fn view(&self) -> Seq<char> {
        self.message@
    }
}

impl ProxyErr {
    /// Wrap a message in an error value.
    pub fn new(message: &str) -> (r: ProxyErr)
        ensures
            r@ == message@,
    {
        ProxyErr { message: message.to_owned() }
    }

    /// Wrap a message in a boxed error value.
    pub fn newboxed(message: &str) -> (r: Box<ProxyErr>)
        ensures
            r@ == message@,
    {
        Box::new(ProxyErr::new(message))
    }

    /// The message carried by this error.
    pub fn message(&self) -> (r: &str)
        ensures
            r@ == self@,
    {
        self.message.as_str()
    }
}

} // verus!
