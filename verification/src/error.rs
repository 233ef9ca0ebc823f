//! The ways in which an operation on the registry can fail.

use vstd::prelude::*;

verus! {

/// Why an operation was refused.
///
/// Every kind but [`Error::PaymentFailed`] and [`Error::FatalInconsistency`]
/// is found before anything is changed.
#[derive(Clone, Copy, Debug, PartialEq, Eq, Structural)]
pub enum Error {
    /// The next id would be the largest number an id can hold.
    IdOverflow,
    /// No kitty has the id that was named.
    EntityNotFound,
    /// The caller does not own the kitty.
    NotOwner,
    /// A kitty cannot breed with itself.
    SameParent,
    /// The two parents are of the same sex.
    CategoryMismatch,
    /// The child's generation would not fit its counter.
    GenerationOverflow,
    /// Sender and receiver of a transfer are the same account.
    SelfTransfer,
    /// The kitty is for sale and cannot be given away.
    OnSale,
    /// The kitty is not for sale.
    NotOnSale,
    /// The kitty is for sale already.
    AlreadyOnSale,
    /// The buyer offers less than the asking price.
    BidTooLow,
    /// The payment for a purchase did not go through.
    PaymentFailed,
    /// The index and the store disagree.
    FatalInconsistency,
}

} // verus!
