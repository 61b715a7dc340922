//! The record types of the book: accounts, swaps, side lists and the global
//! scalars.

use vstd::prelude::*;

verus! {

/// Which leg of a swap an exposure belongs to.
#[derive(Clone, Copy, PartialEq, Eq, Structural, Debug)]
pub enum Side {
    Fixed,
    Floating,
}

/// An account's net position: one of the two sides, or flat (no exposure).
#[derive(Clone, Copy, PartialEq, Eq, Structural, Debug)]
pub enum Position {
    Fixed,
    Floating,
    Flat,
}

/// Life cycle of a swap record. A swap is created in `Ordering`, becomes
/// `Complete` when a counter-party is chosen, and `Defaulted` when its owner
/// is liquidated. `Continue` is a reserved intermediate state that no
/// operation currently assigns.
#[derive(Clone, Copy, PartialEq, Eq, Structural, Debug)]
pub enum SwapStatus {
    Ordering,
    Continue,
    Complete,
    Defaulted,
}

/// Typed failures. Every operation either completes in full or returns one of
/// these with the book left exactly as it was.
#[derive(Clone, Copy, PartialEq, Eq, Structural, Debug)]
pub enum SwapError {
    /// An arithmetic result would not fit the balance type.
    Overflow,
    /// A swap id that structurally must exist was not found.
    MissingSwap,
    /// The ownership record was read before construction.
    MissingOwnership,
    /// A bid was placed on a swap that is no longer ordering.
    AlreadyStarted,
    /// A bidder placed a second bid on the same swap.
    AlreadyJoined,
    /// A decision was attempted by an account that does not own the swap.
    NotOwner,
    /// The chosen counter-party never bid on the swap.
    NoSuchParticipant,
    /// Settlement was attempted before the swap matured.
    MaturityNotReached,
}

impl Side {
    /// The position tag an account holds when exposed on this side.
    pub open spec fn position(self) -> Position {
        match self {
            Side::Fixed => Position::Fixed,
            Side::Floating => Position::Floating,
        }
    }

    /// The other side of the book.
    pub open spec fn opposite(self) -> Side {
        match self {
            Side::Fixed => Side::Floating,
            Side::Floating => Side::Fixed,
        }
    }
}

/// The single privileged address, set at construction.
#[derive(Clone, Copy, PartialEq, Eq, Structural, Debug)]
pub struct Ownership {
    pub owner_addr: u64,
}

/// A participant's account: collateral, net position and the swaps it is
/// currently part of.
pub struct User {
    /// The account address this record belongs to.
    pub address: u64,
    /// Non-negative collateral balance.
    pub deposit: u128,
    /// Side of the account's net exposure, or `Flat` when it has none.
    pub position: Position,
    /// Unsigned magnitude of the net notional on `position`'s side.
    pub exposure: u128,
    /// Ids of the swaps the account currently participates in (no duplicates).
    pub swaps: Vec<u64>,
}

/// One swap contract.
pub struct Swap {
    pub id: u64,
    pub owner: u64,
    /// The side the creator chose.
    pub side: Side,
    /// Notional amount.
    pub amount: u128,
    /// Open bids, candidate address to proposed rate (keys unique); cleared
    /// when a counter-party is decided.
    pub participants: Vec<(u64, u128)>,
    /// The selected counter-party; initially the creator itself.
    pub counterparty: u64,
    pub maturity: u128,
    pub pay_rate: u128,
    pub receive_rate: u128,
    pub status: SwapStatus,
}

/// Accounts currently net fixed (no duplicates).
pub struct Fixlist(pub Vec<u64>);

/// Accounts currently net floating (no duplicates).
pub struct Floatlist(pub Vec<u64>);

/// Ids of swaps whose owner has defaulted (no duplicates).
pub struct Defaultlist(pub Vec<u64>);

/// The swap counter: monotonically increasing source of new swap ids.
pub struct Swaps(pub u64);

/// The mark-to-market reference price.
pub struct Price(pub u128);

/// A stored fixed-side size counter. Kept as a named record of the book; no
/// operation of the engine writes it.
pub struct Fixlistsize(pub u64);

/// A stored floating-side size counter. Kept as a named record of the book;
/// no operation of the engine writes it.
pub struct Floatlistsize(pub u64);

} // verus!
