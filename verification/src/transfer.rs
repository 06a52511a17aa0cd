//! Ledger transfer commands.
//!
//! The engine never inspects balances: it commands transfers. Each operation
//! returns the ordered list of transfers the surrounding system must apply to
//! its token ledger, atomically with the book update. A single transfer moves
//! one amount of one token from one account to another, so the amount debited
//! from the payer always equals the amount credited to the payee.

use vstd::prelude::*;

verus! {

use crate::order::{AccountId, TokenAmount};

/// Which of the two fungible tokens a transfer moves: the currency the books
/// are priced in, or the asset being traded.
#[derive(Copy, Clone, Debug, PartialEq, Eq, Hash, Structural)]
pub enum Token {
    Currency,
    Asset,
}

/// A command to move `amount` units of `token` from `from` to `to`.
#[derive(Copy, Clone, Debug, PartialEq, Eq, Structural)]
pub struct Transfer {
    pub from: AccountId,
    pub to: AccountId,
    pub token: Token,
    pub amount: TokenAmount,
}

} // verus!
