use vstd::prelude::*;

verus! {

/// Why an operation of the engine failed. A failed operation changes nothing.
#[derive(Clone, Copy, Debug, PartialEq, Eq, Structural)]
pub enum ForgeError {
    /// The exact result does not fit in 128 signed bits.
    Overflow,
    /// A divisor was zero.
    DivisionByZero,
    /// A pool cannot serve the request, or the amounts fall below the caller's minimums.
    InsufficientLiquidity,
    /// The final output of a swap is below the caller's minimum.
    InsufficientOutputAmount,
    /// The current time is past the caller's deadline.
    Expired,
    /// The account has no stake record.
    NoStakeFound,
    /// An amount that must be positive was not.
    InvalidAmount,
    /// The engine's configuration has not been set.
    NotInitialized,
    /// A pair was asked for between a token and itself.
    IdenticalTokens,
    /// No pool exists for the two tokens.
    PairNotFound,
    /// A swap path names fewer than two tokens.
    InvalidPath,
}

} // verus!
