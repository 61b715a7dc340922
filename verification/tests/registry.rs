//! Tests for the swap registry: creation, bids, counter-party decision and
//! settlement.

use namahage_swap::contract::Contract;
use namahage_swap::types::{Position, Side, SwapError, SwapStatus};

const ALICE: u64 = 11;
const BOB: u64 = 22;
const CAROL: u64 = 33;

#[test]
fn construct_records_owner_and_zero_price() {
    let mut c = Contract::new();
    assert_eq!(c.get_ownership().err(), Some(SwapError::MissingOwnership));
    c.construct(ALICE);
    assert_eq!(c.get_ownership().unwrap().owner_addr, ALICE);
    assert_eq!(c.get_price(), 0u128);
}

#[test]
fn create_swap_allocates_incrementing_ids() {
    let mut c = Contract::new();
    assert_eq!(c.get_swap_size(), 0u64);
    c.create_swap(Side::Fixed, 500, 700, 3, ALICE).unwrap();
    c.create_swap(Side::Floating, 800, 900, 4, BOB).unwrap();
    assert_eq!(c.get_swap_size(), 2u64);
    assert_eq!(c.get_swaps(), 2u64);
    let info = c.get_swap_info(1).unwrap();
    assert_eq!(info, (1u64, Side::Fixed, SwapStatus::Ordering, 700u128, 3u128, 0u128));
    let info2 = c.get_swap_info(2).unwrap();
    assert_eq!(info2, (2u64, Side::Floating, SwapStatus::Ordering, 900u128, 4u128, 0u128));
}

#[test]
fn join_swap_rejects_missing_and_double_bids() {
    let mut c = Contract::new();
    assert_eq!(c.join_swap(1, BOB, 5), Err(SwapError::MissingSwap));
    c.create_swap(Side::Fixed, 500, 700, 3, ALICE).unwrap();
    c.join_swap(1, BOB, 5).unwrap();
    assert_eq!(c.join_swap(1, BOB, 6), Err(SwapError::AlreadyJoined));
    c.join_swap(1, CAROL, 6).unwrap();
}

#[test]
fn join_swap_rejects_started_swaps() {
    let mut c = Contract::new();
    c.create_swap(Side::Fixed, 500, 700, 3, ALICE).unwrap();
    c.join_swap(1, BOB, 5).unwrap();
    c.swap_decision(1, BOB, ALICE).unwrap();
    assert_eq!(c.join_swap(1, CAROL, 6), Err(SwapError::AlreadyStarted));
}

#[test]
fn swap_decision_checks_owner_and_participant() {
    let mut c = Contract::new();
    c.create_swap(Side::Fixed, 500, 700, 3, ALICE).unwrap();
    c.join_swap(1, BOB, 5).unwrap();
    assert_eq!(c.swap_decision(1, BOB, CAROL), Err(SwapError::NotOwner));
    assert_eq!(c.swap_decision(1, CAROL, ALICE), Err(SwapError::NoSuchParticipant));
    assert_eq!(c.swap_decision(9, BOB, ALICE), Err(SwapError::MissingSwap));
}

#[test]
fn swap_decision_completes_and_opens_exposure() {
    let mut c = Contract::new();
    c.create_swap(Side::Fixed, 500, 700, 3, ALICE).unwrap();
    c.join_swap(1, BOB, 5).unwrap();
    c.swap_decision(1, BOB, ALICE).unwrap();
    let info = c.get_swap_info(1).unwrap();
    assert_eq!(info.2, SwapStatus::Complete);
    // the chosen bid's rate becomes the receive rate
    assert_eq!(info.5, 5u128);
    let u = c.get_user(ALICE);
    assert_eq!(u.position, Position::Fixed);
    assert_eq!(u.exposure, 500u128);
    assert_eq!(u.swaps, vec![1u64]);
}

#[test]
fn complete_requires_maturity_and_closes() {
    let mut c = Contract::new();
    c.create_swap(Side::Fixed, 500, 700, 3, ALICE).unwrap();
    c.join_swap(1, BOB, 5).unwrap();
    c.swap_decision(1, BOB, ALICE).unwrap();
    assert_eq!(c.complete(1, 699), Err(SwapError::MaturityNotReached));
    assert_eq!(c.get_user(ALICE).exposure, 500u128);
    c.complete(1, 700).unwrap();
    let u = c.get_user(ALICE);
    assert_eq!(u.exposure, 0u128);
    // closing the full notional zeroes the magnitude but keeps the side tag
    assert_eq!(u.position, Position::Fixed);
    assert_eq!(u.swaps, Vec::<u64>::new());
    // settlement reads the status but never transitions it
    assert_eq!(c.get_swap_info(1).unwrap().2, SwapStatus::Complete);
    assert_eq!(c.complete(9, 700), Err(SwapError::MissingSwap));
}

#[test]
fn size_records_are_never_written() {
    let mut c = Contract::new();
    c.open_exposure(ALICE, 100, Side::Fixed, 1).unwrap();
    assert_eq!(c.get_fixlist_size(), 0u64);
    assert_eq!(c.get_floatlist_size(), 0u64);
}
