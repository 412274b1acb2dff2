use vstd::prelude::*;

verus! {

/// Every error that a call on the splitter can return.
#[derive(Copy, Clone, Debug, PartialEq, Eq, Structural)]
pub enum Error {
    /// `initialize` was called on a splitter that already has an admin.
    AlreadyInitialized,
    /// An admin operation was called before the splitter had an admin.
    NotAdmin,
    /// Strict mode is on and some recipient is not verified.
    RecipientNotVerified,
    /// Strict mode is off and no recipient is verified.
    NoVerifiedRecipients,
    /// The shares do not add up to exactly `BPS_DENOMINATOR`.
    InvalidSplit,
    /// An intermediate sum or product left the range of its integer type.
    Overflow,
}

} // verus!
