//! Failures the library reports.

use vstd::prelude::*;

verus! {

#[derive(Clone, Copy, Debug, PartialEq, Eq, Structural)]
pub enum Error {
    /// The memory provider failed to read a region.
    Provider,
    /// A pair file whose length is not a whole number of records.
    Format,
    /// Search parameters out of range: a depth over the limit, or roots out of order.
    Params,
}

} // verus!
