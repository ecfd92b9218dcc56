use vstd::prelude::*;

verus! {

/// Every way a call into the library can fail.
#[derive(Clone, Debug, PartialEq, Eq)]
pub enum ContractError {
    /// The caller is not an admin, or the admin set is frozen.
    Unauthorized,
    /// An address was rejected by the chain's address validation; holds its message.
    InvalidAddress(String),
    /// The tracked asset list names one asset twice.
    DuplicateAssetInfos,
    /// A settled asset has no global index entry: it was never initialized.
    GlobalIndexNotFound,
    /// The total share handed to a settlement is zero.
    DivideByZero,
    /// A fixed-point index or a payout does not fit its integer width.
    Overflow,
}

} // verus!
