//! Scenario tests for the exposure and rebalancing engine.

use namahage_swap::contract::Contract;
use namahage_swap::types::{Position, Side, SwapError, SwapStatus};

const A: u64 = 1;
const B: u64 = 2;
const OWNER: u64 = 99;

#[test]
fn open_first_fixed_exposure_lists_and_tags() {
    let mut c = Contract::new();
    c.open_exposure(A, 100, Side::Fixed, 1).unwrap();
    let u = c.get_user(A);
    assert_eq!(u.position, Position::Fixed);
    assert_eq!(u.exposure, 100u128);
    assert_eq!(u.swaps, vec![1u64]);
    assert_eq!(c.get_fixlist(), vec![A]);
    assert_eq!(c.get_floatlist(), Vec::<u64>::new());
}

#[test]
fn open_first_floating_exposure_creates_no_membership() {
    // a floating first exposure takes the side but joins no side list
    let mut c = Contract::new();
    c.open_exposure(A, 100, Side::Floating, 1).unwrap();
    let u = c.get_user(A);
    assert_eq!(u.position, Position::Floating);
    assert_eq!(u.exposure, 100u128);
    assert_eq!(c.get_floatlist(), Vec::<u64>::new());
    assert_eq!(c.get_fixlist(), Vec::<u64>::new());
}

#[test]
fn open_same_side_accumulates() {
    let mut c = Contract::new();
    c.open_exposure(A, 100, Side::Fixed, 1).unwrap();
    c.open_exposure(A, 40, Side::Fixed, 2).unwrap();
    let u = c.get_user(A);
    assert_eq!(u.position, Position::Fixed);
    assert_eq!(u.exposure, 140u128);
    assert_eq!(u.swaps, vec![1u64, 2u64]);
}

#[test]
fn open_partial_offset_keeps_side_and_lists() {
    let mut c = Contract::new();
    c.open_exposure(A, 30, Side::Fixed, 1).unwrap();
    c.open_exposure(A, 10, Side::Floating, 2).unwrap();
    let u = c.get_user(A);
    assert_eq!(u.position, Position::Fixed);
    assert_eq!(u.exposure, 20u128);
    // no swap id is recorded on a partial offset
    assert_eq!(u.swaps, vec![1u64]);
    assert_eq!(c.get_fixlist(), vec![A]);
    assert_eq!(c.get_floatlist(), Vec::<u64>::new());
}

#[test]
fn open_flip_moves_side_and_lists() {
    let mut c = Contract::new();
    c.open_exposure(A, 30, Side::Fixed, 1).unwrap();
    c.open_exposure(A, 50, Side::Floating, 2).unwrap();
    let u = c.get_user(A);
    assert_eq!(u.position, Position::Floating);
    assert_eq!(u.exposure, 20u128);
    assert_eq!(u.swaps, vec![1u64, 2u64]);
    assert_eq!(c.get_fixlist(), Vec::<u64>::new());
    assert_eq!(c.get_floatlist(), vec![A]);
}

#[test]
fn close_on_other_side_grows_and_unrecords() {
    let mut c = Contract::new();
    c.open_exposure(A, 30, Side::Floating, 1).unwrap();
    // closing a fixed swap of an account positioned floating grows the magnitude
    c.close_exposure(A, 10, Side::Fixed, 1).unwrap();
    let u = c.get_user(A);
    assert_eq!(u.position, Position::Floating);
    assert_eq!(u.exposure, 40u128);
    assert_eq!(u.swaps, Vec::<u64>::new());
}

#[test]
fn close_flip_keeps_side_lists() {
    let mut c = Contract::new();
    c.open_exposure(A, 30, Side::Fixed, 1).unwrap();
    // closing more fixed notional than held flips the account but, unlike
    // opening, never touches the side lists
    c.close_exposure(A, 50, Side::Fixed, 1).unwrap();
    let u = c.get_user(A);
    assert_eq!(u.position, Position::Floating);
    assert_eq!(u.exposure, 20u128);
    assert_eq!(c.get_fixlist(), vec![A]);
    assert_eq!(c.get_floatlist(), Vec::<u64>::new());
}

#[test]
fn mark_to_market_transfers_between_sides() {
    // account A holds 100 fixed; account B holds 100 floating (via a flip,
    // so that it carries floating-list membership); the price falls from 10
    // to 8, so B pays 200 and A receives 200
    let mut c = Contract::new();
    c.construct(OWNER);
    c.mark_to_market(10).unwrap();
    c.deposit(A, 1000).unwrap();
    c.deposit(B, 500).unwrap();
    c.open_exposure(A, 100, Side::Fixed, 1).unwrap();
    c.open_exposure(B, 1, Side::Fixed, 2).unwrap();
    c.open_exposure(B, 101, Side::Floating, 3).unwrap();
    let ub = c.get_user(B);
    assert_eq!(ub.position, Position::Floating);
    assert_eq!(ub.exposure, 100u128);
    assert_eq!(c.get_floatlist(), vec![B]);

    c.mark_to_market(8).unwrap();
    assert_eq!(c.get_price(), 8u128);
    assert_eq!(c.get_user(A).deposit, 1200u128);
    assert_eq!(c.get_user(B).deposit, 300u128);
    assert_eq!(c.get_user(A).exposure, 100u128);
    assert_eq!(c.get_user(B).exposure, 100u128);
}

#[test]
fn mark_to_market_defaults_underfunded_payer() {
    // an account with exposure 50 fixed and deposit 40: a price rise of 1
    // charges the fixed side 50, which the deposit cannot cover, so the
    // account is liquidated and its swap defaults
    let mut c = Contract::new();
    c.construct(OWNER);
    c.create_swap(Side::Fixed, 50, 1000, 5, A).unwrap();
    c.join_swap(1, B, 7).unwrap();
    c.swap_decision(1, B, A).unwrap();
    c.deposit(A, 40).unwrap();
    assert_eq!(c.get_user(A).exposure, 50u128);
    assert_eq!(c.get_fixlist(), vec![A]);

    c.mark_to_market(1).unwrap();
    let u = c.get_user(A);
    assert_eq!(u.deposit, 0u128);
    assert_eq!(u.exposure, 0u128);
    assert_eq!(u.position, Position::Flat);
    assert_eq!(u.swaps, Vec::<u64>::new());
    let info = c.get_swap_info(1).unwrap();
    assert_eq!(info.2, SwapStatus::Defaulted);
    assert_eq!(c.get_defaultlist(), vec![1u64]);
    assert_eq!(c.get_fixlist(), Vec::<u64>::new());
}

#[test]
fn mark_to_market_same_price_changes_nothing() {
    let mut c = Contract::new();
    c.construct(OWNER);
    c.mark_to_market(10).unwrap();
    c.deposit(A, 77).unwrap();
    c.open_exposure(A, 100, Side::Fixed, 1).unwrap();
    c.mark_to_market(10).unwrap();
    let u = c.get_user(A);
    assert_eq!(u.deposit, 77u128);
    assert_eq!(u.exposure, 100u128);
    assert_eq!(u.position, Position::Fixed);
    assert_eq!(c.get_price(), 10u128);
    assert_eq!(c.get_fixlist(), vec![A]);
}

#[test]
fn mark_to_market_missing_swap_leaves_book_unchanged() {
    // A's only swap id was never stored; A would default under the move, so
    // the whole pass fails atomically and no account changes
    let mut c = Contract::new();
    c.construct(OWNER);
    c.mark_to_market(10).unwrap();
    c.deposit(A, 5).unwrap();
    c.open_exposure(A, 100, Side::Fixed, 42).unwrap();
    c.deposit(B, 1000).unwrap();
    c.open_exposure(B, 1, Side::Fixed, 43).unwrap();
    c.open_exposure(B, 2, Side::Floating, 44).unwrap();
    let r = c.mark_to_market(11);
    assert_eq!(r, Err(SwapError::MissingSwap));
    assert_eq!(c.get_price(), 10u128);
    assert_eq!(c.get_user(A).deposit, 5u128);
    assert_eq!(c.get_user(B).deposit, 1000u128);
    assert_eq!(c.get_user(A).exposure, 100u128);
}

#[test]
fn mark_to_market_overflow_is_rejected() {
    let mut c = Contract::new();
    c.open_exposure(A, u128::MAX, Side::Fixed, 1).unwrap();
    c.deposit(A, 3).unwrap();
    let r = c.mark_to_market(2);
    assert_eq!(r, Err(SwapError::Overflow));
    assert_eq!(c.get_price(), 0u128);
    assert_eq!(c.get_user(A).deposit, 3u128);
}

#[test]
fn force_default_requires_stored_swaps() {
    let mut c = Contract::new();
    c.open_exposure(A, 10, Side::Fixed, 42).unwrap();
    assert_eq!(c.force_default(A), Err(SwapError::MissingSwap));
    assert_eq!(c.get_user(A).exposure, 10u128);
}

#[test]
fn force_default_resets_account_and_marks_swaps() {
    let mut c = Contract::new();
    c.create_swap(Side::Fixed, 10, 1000, 5, A).unwrap();
    c.join_swap(1, B, 7).unwrap();
    c.swap_decision(1, B, A).unwrap();
    c.deposit(A, 123).unwrap();
    c.force_default(A).unwrap();
    let u = c.get_user(A);
    assert_eq!(u.deposit, 0u128);
    assert_eq!(u.exposure, 0u128);
    assert_eq!(u.position, Position::Flat);
    assert_eq!(c.get_defaultlist(), vec![1u64]);
    assert_eq!(c.get_swap_info(1).unwrap().2, SwapStatus::Defaulted);
    assert_eq!(c.get_fixlist(), Vec::<u64>::new());
}

#[test]
fn deposit_accumulates_and_overflows_typed() {
    let mut c = Contract::new();
    c.deposit(A, 40).unwrap();
    c.deposit(A, 2).unwrap();
    assert_eq!(c.get_user(A).deposit, 42u128);
    c.deposit(B, u128::MAX).unwrap();
    assert_eq!(c.deposit(B, 1), Err(SwapError::Overflow));
    assert_eq!(c.get_user(B).deposit, u128::MAX);
}

#[test]
fn mark_to_market_rising_price_inverts_roles() {
    // when the price rises the fixed side pays and the floating side receives
    let mut c = Contract::new();
    c.construct(OWNER);
    c.deposit(A, 1000).unwrap();
    c.deposit(B, 1000).unwrap();
    c.open_exposure(A, 100, Side::Fixed, 1).unwrap();
    c.open_exposure(B, 1, Side::Fixed, 2).unwrap();
    c.open_exposure(B, 101, Side::Floating, 3).unwrap();
    c.mark_to_market(3).unwrap();
    assert_eq!(c.get_user(A).deposit, 700u128);
    assert_eq!(c.get_user(B).deposit, 1300u128);
    assert_eq!(c.get_price(), 3u128);
}

#[test]
fn open_exact_offset_zeroes_magnitude_but_keeps_tag() {
    // offsetting the whole exposure leaves a zero magnitude under the old
    // side tag: the one input on which position and exposure fall out of step
    let mut c = Contract::new();
    c.open_exposure(A, 30, Side::Fixed, 1).unwrap();
    c.open_exposure(A, 30, Side::Floating, 2).unwrap();
    let u = c.get_user(A);
    assert_eq!(u.position, Position::Fixed);
    assert_eq!(u.exposure, 0u128);
    assert_eq!(c.get_fixlist(), vec![A]);
}
