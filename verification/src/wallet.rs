//! Wallet addresses: the stored record and the shape an address must have.

use crate::text::{trim, trimmed};
use vstd::prelude::*;

verus! {

/// One row of the wallet table.
#[derive(Debug, PartialEq, Eq)]
pub struct WalletAddress {
    /// Assigned by the table, never reused.
    pub id: i64,
    /// The address as it was accepted.
    pub address: String,
    /// Seconds since the Unix epoch at which the row was inserted.
    pub created_at: i64,
}

/// What a `WalletAddress` stands for in contracts.
pub struct WalletRecord {
    pub id: int,
    pub address: Seq<char>,
    pub created_at: int,
}

impl View for WalletAddress {
    type V = WalletRecord;

    open spec fn view(&self) -> WalletRecord {
        WalletRecord { id: self.id as int, address: self.address@, created_at: self.created_at as int }
    }
}

/// The records that a sequence of rows stands for, in the same order.
pub open spec fn records_of(rows: Seq<WalletAddress>) -> Seq<WalletRecord> {
    rows.map_values(|w: WalletAddress| w@)
}

impl WalletAddress {
    /// A row equal to this one.
    pub fn duplicate(&self) -> (r: WalletAddress)
        ensures
            r@ == self@,
    {
        WalletAddress { id: self.id, address: self.address.clone(), created_at: self.created_at }
    }
}

/// Why an address was turned down before it reached the table.
#[derive(Debug, Clone, Copy, PartialEq, Eq)]
pub enum ValidationError {
    /// Nothing is left after trimming.
    Empty,
    /// The trimmed text does not start with `0x` or is not 42 characters long.
    InvalidFormat,
}

/// The number of characters of an address, prefix included.
pub const ADDRESS_LEN: usize = 42;

/// The shape of an address: `0x` and 40 more characters, whatever they are.
pub open spec fn is_well_formed(address: Seq<char>) -> bool {
    address.len() == ADDRESS_LEN && address[0] == '0' && address[1] == 'x'
}

/// What validation makes of `input`: the trimmed address, or why not.
pub open spec fn validated(input: Seq<char>) -> Result<Seq<char>, ValidationError> {
    let address = trimmed(input);
    if address.len() == 0 {
        Err(ValidationError::Empty)
    } else if !is_well_formed(address) {
        Err(ValidationError::InvalidFormat)
    } else {
        Ok(address)
    }
}

/// Trims `input` and checks its shape. The address that comes back is the
/// trimmed text, borrowed from `input`.
pub fn validate_address<'a>(input: &'a str) -> (r: Result<&'a str, ValidationError>)
    ensures
        match validated(input@) {
            Ok(address) => r is Ok && r->Ok_0@ == address,
            Err(e) => r == Err::<&str, ValidationError>(e),
        },
{
    let address = trim(input);
    if address.is_empty() {
        return Err(ValidationError::Empty);
    }
    let n: usize = address.unicode_len();
    if n != ADDRESS_LEN {
        return Err(ValidationError::InvalidFormat);
    }
    if address.get_char(0) != '0' || address.get_char(1) != 'x' {
        return Err(ValidationError::InvalidFormat);
    }
    Ok(address)
}

} // verus!
