//! Where a finished report goes.
use vstd::prelude::*;

verus! {

/// A destination for report text (the console, a file, ...).
pub trait Writer {
    fn write(&self, text: &String);
}

} // verus!
