//! Timestamp precision announced to the sink alongside a write.

use vstd::prelude::*;

verus! {

/// Precisions, ordered from finest to coarsest.
#[derive(Clone, Copy, Debug, PartialEq, Eq, PartialOrd, Ord, Hash)]
pub enum Precision {
    Nanoseconds,
    Microseconds,
    Milliseconds,
    Seconds,
}

impl Precision {
    /// The query-parameter token the sink understands for this
    /// precision.
    pub fn as_str(&self) -> (r: &'static str)
        ensures
            self is Nanoseconds ==> r@ == "ns"@,
            self is Microseconds ==> r@ == "us"@,
            self is Milliseconds ==> r@ == "ms"@,
            self is Seconds ==> r@ == "s"@,
    {
        match self {
            Precision::Nanoseconds => "ns",
            Precision::Microseconds => "us",
            Precision::Milliseconds => "ms",
            Precision::Seconds => "s",
        }
    }

    /// The same token as an owned string.
    pub fn to_string(&self) -> (r: String)
        ensures
            self is Nanoseconds ==> r@ == "ns"@,
            self is Microseconds ==> r@ == "us"@,
            self is Milliseconds ==> r@ == "ms"@,
            self is Seconds ==> r@ == "s"@,
    {
        self.as_str().to_owned()
    }
}

impl Default for Precision {
    /// The sink's default precision is nanoseconds.
    fn default() -> (r: Precision)
        ensures
            r is Nanoseconds,
    {
        Precision::Nanoseconds
    }
}

} // verus!
