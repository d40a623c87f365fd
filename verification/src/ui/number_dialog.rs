//! The plain data of a dialog that prompts the operator for one number: a
//! message to display and the callback to run with the parsed value. The
//! screen-handling half lives with the surrounding application, which owns
//! the terminal.

use vstd::prelude::*;

verus! {

/// A prompt for one value of type `T`, together with what to do with it.
/// `F` is the callback the surrounding application invokes once the
/// operator has entered a value that parses.
pub struct NumberDialog<T, F> {
    pub message: String,
    pub callback: F,
    pub phantom: core::marker::PhantomData<T>,
}

impl<T, F> NumberDialog<T, F> {
    /// Packs a prompt message and a callback into a dialog description.
    pub fn new(message: String, callback: F) -> (d: NumberDialog<T, F>)
        ensures
            d.message == message,
            d.callback == callback,
    {
        NumberDialog { message, callback, phantom: core::marker::PhantomData }
    }
}

} // verus!
