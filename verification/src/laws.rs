//! The laws of the engine, proved over the transition functions of
//! [`crate::model`]: the position/exposure invariant, side-list exclusivity,
//! flip and offset correctness, mark-to-market conservation, the default
//! trigger, and idempotence of an unchanged price.

use vstd::prelude::*;

use crate::model::{
    book_inv, charge_fold, charge_of, charge_ok, credit_fold, credit_ok, default_apply,
    default_ok, lemma_charge_fold_frame, lemma_credit_fold_frame, lemma_default_apply,
    mtm_apply, mtm_ok, open_apply, open_ok, pay_side, pays, positions_ok, price_diff, recv_side,
    set_insert, set_remove, sum_deposits, sum_exposures, user_pos_ok, BookV, SwapV, UserV,
    charge_one, close_apply, close_ok,
};
use crate::types::{Position, Side, SwapStatus};

verus! {

/// In a well-formed book an account appears in at most one of the fixed and
/// floating side lists. Every operation keeps the book well formed, so this
/// holds after every operation.
pub proof fn lemma_side_lists_exclusive(b: BookV, address: u64)
    requires
        book_inv(b),
    ensures
        !(b.fixlist.contains(address) && b.floatlist.contains(address)),
{
}

/// Opening exposure preserves the position/exposure agreement: an account is
/// flat exactly when its exposure is zero. The two inputs this cannot hold
/// on are excluded: a zero first exposure, and an opposing amount exactly
/// equal to the current exposure (which zeroes the magnitude while the side
/// tag is kept).
pub proof fn lemma_open_preserves_positions(
    b: BookV,
    address: u64,
    amount: u128,
    side: Side,
    swap_id: u64,
)
    requires
        positions_ok(b),
        open_ok(b, address, amount, side),
        b.user(address).position == Position::Flat ==> amount > 0,
        b.user(address).position != Position::Flat && b.user(address).position != side.position()
            ==> amount != b.user(address).exposure,
    ensures
        positions_ok(open_apply(b, address, amount, side, swap_id)),
{
    let b2 = open_apply(b, address, amount, side, swap_id);
    assert(user_pos_ok(b.user(address)));
    assert forall|a: u64| user_pos_ok(#[trigger] b2.user(a)) by {
        if a != address {
            assert(b2.user(a) == b.user(a));
            assert(user_pos_ok(b.user(a)));
        }
    }
}

/// Closing exposure preserves the position/exposure agreement. The inputs
/// this cannot hold on are excluded: closing against a flat account (which
/// grows exposure while the tag stays flat), and a same-side amount exactly
/// equal to the current exposure.
pub proof fn lemma_close_preserves_positions(
    b: BookV,
    address: u64,
    amount: u128,
    side: Side,
    swap_id: u64,
)
    requires
        positions_ok(b),
        close_ok(b, address, amount, side),
        b.user(address).position != Position::Flat,
        b.user(address).position == side.position() ==> amount != b.user(address).exposure,
    ensures
        positions_ok(close_apply(b, address, amount, side, swap_id)),
{
    let b2 = close_apply(b, address, amount, side, swap_id);
    assert(user_pos_ok(b.user(address)));
    assert forall|a: u64| user_pos_ok(#[trigger] b2.user(a)) by {
        if a != address {
            assert(b2.user(a) == b.user(a));
            assert(user_pos_ok(b.user(a)));
        }
    }
}

/// A forced default preserves the position/exposure agreement: the account
/// is reset to flat with zero exposure, every other account is untouched.
pub proof fn lemma_default_preserves_positions(b: BookV, address: u64)
    requires
        book_inv(b),
        positions_ok(b),
    ensures
        positions_ok(default_apply(b, address)),
{
    lemma_default_apply(b, address);
    let b2 = default_apply(b, address);
    assert forall|a: u64| user_pos_ok(#[trigger] b2.user(a)) by {
        if a != address {
            assert(b2.user(a) == b.user(a));
            assert(user_pos_ok(b.user(a)));
        }
    }
}

/// A mark-to-market pass preserves the position/exposure agreement: charges
/// and credits move collateral only, and a liquidated account is reset to
/// flat with zero exposure.
pub proof fn lemma_mtm_preserves_positions(b: BookV, new_price: u128)
    requires
        book_inv(b),
        positions_ok(b),
        mtm_ok(b, new_price),
    ensures
        positions_ok(mtm_apply(b, new_price)),
{
    if new_price != b.price {
        let diff = price_diff(b, new_price);
        let pay = pay_side(b, new_price);
        let recv = recv_side(b, new_price);
        lemma_charge_fold_frame(b, pay, diff);
        let b1 = charge_fold(b, pay, diff);
        assert forall|i: int| 0 <= i < recv.len() implies credit_ok(b1, #[trigger] recv[i], diff) by {
            assert(recv.contains(recv[i]));
            assert(!pay.contains(recv[i]));
            assert(b1.user(recv[i]) == b.user(recv[i]));
            assert(credit_ok(b, recv[i], diff));
        }
        lemma_credit_fold_frame(b1, recv, diff);
        let b2 = credit_fold(b1, recv, diff);
        let c = mtm_apply(b, new_price);
        assert forall|a: u64| user_pos_ok(#[trigger] c.user(a)) by {
            assert(c.user(a) == b2.user(a));
            if recv.contains(a) {
                let i = choose|i: int| 0 <= i < recv.len() && recv[i] == a;
                assert(b2.user(recv[i]).position == b1.user(recv[i]).position);
                assert(b2.user(recv[i]).exposure == b1.user(recv[i]).exposure);
            } else {
                assert(b2.user(a) == b1.user(a));
            }
            if pay.contains(a) {
                let i = choose|i: int| 0 <= i < pay.len() && pay[i] == a;
                assert(user_pos_ok(b.user(pay[i])));
                assert(b1.user(pay[i]).position == b.user(pay[i]).position && b1.user(
                    pay[i],
                ).exposure == b.user(pay[i]).exposure || b1.user(pay[i]) == UserV::fresh(pay[i]));
            } else {
                assert(b1.user(a) == b.user(a));
                assert(user_pos_ok(b.user(a)));
            }
        }
    }
}

/// Flip correctness: opening `amount` on the opposite side of an account
/// with exposure `e < amount` yields the new side as position and exposure
/// `amount - e`.
pub proof fn lemma_open_flip(b: BookV, address: u64, amount: u128, side: Side, swap_id: u64)
    requires
        b.user(address).position == side.opposite().position(),
        amount > b.user(address).exposure,
    ensures
        open_apply(b, address, amount, side, swap_id).user(address).position == side.position(),
        open_apply(b, address, amount, side, swap_id).user(address).exposure == amount - b.user(
            address,
        ).exposure,
{
}

/// Partial offset: opening `amount <= e` on the opposite side keeps the
/// side, sets exposure `e - amount`, and changes neither side list.
pub proof fn lemma_open_partial_offset(
    b: BookV,
    address: u64,
    amount: u128,
    side: Side,
    swap_id: u64,
)
    requires
        b.user(address).position == side.opposite().position(),
        amount <= b.user(address).exposure,
    ensures
        open_apply(b, address, amount, side, swap_id).user(address).position == b.user(
            address,
        ).position,
        open_apply(b, address, amount, side, swap_id).user(address).exposure == b.user(
            address,
        ).exposure - amount,
        open_apply(b, address, amount, side, swap_id).fixlist == b.fixlist,
        open_apply(b, address, amount, side, swap_id).floatlist == b.floatlist,
{
}

/// Default trigger: a paying account whose deposit does not exceed its
/// charge is liquidated: reset to a fresh record (zero deposit and exposure,
/// flat), with every swap it held marked defaulted and listed.
pub proof fn lemma_default_trigger(b: BookV, address: u64, diff: u128)
    requires
        book_inv(b),
        !pays(b.user(address), diff),
        default_ok(b, address),
    ensures
        charge_one(b, address, diff) == default_apply(b, address),
        default_apply(b, address).user(address) == UserV::fresh(address),
        forall|k: u64|
            #[trigger] b.user(address).swaps.contains(k) ==> default_apply(
                b,
                address,
            ).swaps[k].status == SwapStatus::Defaulted && default_apply(
                b,
                address,
            ).defaultlist.contains(k),
{
    lemma_default_apply(b, address);
    assert forall|k: u64| #[trigger] b.user(address).swaps.contains(k) implies default_apply(
        b,
        address,
    ).swaps[k].status == SwapStatus::Defaulted && default_apply(b, address).defaultlist.contains(
        k,
    ) by {
        let i = choose|i: int| 0 <= i < b.user(address).swaps.len() && b.user(address).swaps[i] == k;
        assert(b.swaps.dom().contains(k));
        assert(default_apply(b, address).swaps[k] == (SwapV {
            status: SwapStatus::Defaulted,
            ..b.swaps[k]
        }));
    }
}

/// Idempotence: marking the book to market at the current reference price
/// changes nothing at all.
pub proof fn lemma_mtm_same_price_identity(b: BookV)
    ensures
        mtm_apply(b, b.price) == b,
{
}

// ------------------------------------------------------------------
// Mark-to-market conservation
// ------------------------------------------------------------------

/// Sums over a list of accounts depend only on the stored account records.
proof fn lemma_sums_depend_on_users(x: BookV, y: BookV, addrs: Seq<u64>)
    requires
        x.users == y.users,
    ensures
        sum_deposits(x, addrs) == sum_deposits(y, addrs),
        sum_exposures(x, addrs) == sum_exposures(y, addrs),
    decreases addrs.len(),
{
    if addrs.len() > 0 {
        lemma_sums_depend_on_users(x, y, addrs.drop_last());
        assert(x.user(addrs.last()) == y.user(addrs.last()));
    }
}

/// If every listed account was charged exactly its exposure times `diff`,
/// the listed deposits fell by `diff` times the listed exposure.
proof fn lemma_sum_charged(b: BookV, c: BookV, addrs: Seq<u64>, diff: u128)
    requires
        forall|i: int|
            0 <= i < addrs.len() ==> c.user(#[trigger] addrs[i]).deposit == b.user(
                addrs[i],
            ).deposit - charge_of(b.user(addrs[i]), diff),
    ensures
        sum_deposits(c, addrs) == sum_deposits(b, addrs) - diff * sum_exposures(b, addrs),
    decreases addrs.len(),
{
    if addrs.len() > 0 {
        let dl = addrs.drop_last();
        assert forall|i: int|
            0 <= i < dl.len() implies c.user(#[trigger] dl[i]).deposit == b.user(dl[i]).deposit
            - charge_of(b.user(dl[i]), diff) by {
            assert(dl[i] == addrs[i]);
        }
        lemma_sum_charged(b, c, dl, diff);
        assert(c.user(addrs.last()).deposit == b.user(addrs.last()).deposit - charge_of(
            b.user(addrs.last()),
            diff,
        )) by {
            assert(addrs[addrs.len() - 1] == addrs.last());
        }
        let se = sum_exposures(b, dl);
        let el = b.user(addrs.last()).exposure as int;
        assert(diff * (se + el) == diff * se + diff * el) by (nonlinear_arith);
        assert(charge_of(b.user(addrs.last()), diff) == el * diff);
        assert(el * diff == diff * el) by (nonlinear_arith);
    }
}

/// If every listed account was credited exactly its exposure times `diff`,
/// the listed deposits rose by `diff` times the listed exposure.
proof fn lemma_sum_credited(b: BookV, c: BookV, addrs: Seq<u64>, diff: u128)
    requires
        forall|i: int|
            0 <= i < addrs.len() ==> c.user(#[trigger] addrs[i]).deposit == b.user(
                addrs[i],
            ).deposit + charge_of(b.user(addrs[i]), diff),
    ensures
        sum_deposits(c, addrs) == sum_deposits(b, addrs) + diff * sum_exposures(b, addrs),
    decreases addrs.len(),
{
    if addrs.len() > 0 {
        let dl = addrs.drop_last();
        assert forall|i: int|
            0 <= i < dl.len() implies c.user(#[trigger] dl[i]).deposit == b.user(dl[i]).deposit
            + charge_of(b.user(dl[i]), diff) by {
            assert(dl[i] == addrs[i]);
        }
        lemma_sum_credited(b, c, dl, diff);
        assert(c.user(addrs.last()).deposit == b.user(addrs.last()).deposit + charge_of(
            b.user(addrs.last()),
            diff,
        )) by {
            assert(addrs[addrs.len() - 1] == addrs.last());
        }
        let se = sum_exposures(b, dl);
        let el = b.user(addrs.last()).exposure as int;
        assert(diff * (se + el) == diff * se + diff * el) by (nonlinear_arith);
        assert(charge_of(b.user(addrs.last()), diff) == el * diff);
        assert(el * diff == diff * el) by (nonlinear_arith);
    }
}

/// Mark-to-market conservation, when no account defaults: the collateral
/// removed from the paying side equals `diff` times its total exposure, and
/// the collateral added to the receiving side equals `diff` times its total
/// exposure. When the two sides carry equal total exposure, the amount
/// removed equals the amount added, so total collateral over both sides is
/// conserved. (On a book whose sides carry unequal total exposure — say one
/// account fixed and none floating — removal and addition differ, so the
/// equality of the two sums is a hypothesis, not a consequence.)
pub proof fn lemma_mtm_conservation(b: BookV, new_price: u128)
    requires
        book_inv(b),
        mtm_ok(b, new_price),
        new_price != b.price,
        forall|i: int|
            0 <= i < pay_side(b, new_price).len() ==> pays(
                b.user(#[trigger] pay_side(b, new_price)[i]),
                price_diff(b, new_price),
            ),
    ensures
        sum_deposits(mtm_apply(b, new_price), pay_side(b, new_price)) == sum_deposits(
            b,
            pay_side(b, new_price),
        ) - price_diff(b, new_price) * sum_exposures(b, pay_side(b, new_price)),
        sum_deposits(mtm_apply(b, new_price), recv_side(b, new_price)) == sum_deposits(
            b,
            recv_side(b, new_price),
        ) + price_diff(b, new_price) * sum_exposures(b, recv_side(b, new_price)),
        sum_exposures(b, pay_side(b, new_price)) == sum_exposures(b, recv_side(b, new_price))
            ==> sum_deposits(mtm_apply(b, new_price), pay_side(b, new_price)) + sum_deposits(
            mtm_apply(b, new_price),
            recv_side(b, new_price),
        ) == sum_deposits(b, pay_side(b, new_price)) + sum_deposits(b, recv_side(b, new_price)),
{
    let diff = price_diff(b, new_price);
    let pay = pay_side(b, new_price);
    let recv = recv_side(b, new_price);
    let c = mtm_apply(b, new_price);
    lemma_charge_fold_frame(b, pay, diff);
    let b1 = charge_fold(b, pay, diff);
    assert forall|i: int| 0 <= i < recv.len() implies credit_ok(b1, #[trigger] recv[i], diff) by {
        assert(recv.contains(recv[i]));
        assert(!pay.contains(recv[i]));
        assert(b1.user(recv[i]) == b.user(recv[i]));
        assert(credit_ok(b, recv[i], diff));
    }
    lemma_credit_fold_frame(b1, recv, diff);
    let b2 = credit_fold(b1, recv, diff);
    lemma_sums_depend_on_users(c, b2, pay);
    lemma_sums_depend_on_users(c, b2, recv);
    assert forall|i: int|
        0 <= i < pay.len() implies b2.user(#[trigger] pay[i]).deposit == b.user(pay[i]).deposit
        - charge_of(b.user(pay[i]), diff) by {
        assert(pays(b.user(pay[i]), diff));
        assert(charge_ok(b, pay[i], diff));
        assert(b1.user(pay[i]).deposit == b.user(pay[i]).deposit - charge_of(
            b.user(pay[i]),
            diff,
        ));
        assert(pay.contains(pay[i]));
        assert(!recv.contains(pay[i]));
        assert(b2.user(pay[i]) == b1.user(pay[i]));
    }
    lemma_sum_charged(b, b2, pay, diff);
    assert forall|i: int|
        0 <= i < recv.len() implies b2.user(#[trigger] recv[i]).deposit == b.user(recv[i]).deposit
        + charge_of(b.user(recv[i]), diff) by {
        assert(recv.contains(recv[i]));
        assert(!pay.contains(recv[i]));
        assert(b1.user(recv[i]) == b.user(recv[i]));
        assert(credit_ok(b, recv[i], diff));
        assert(b2.user(recv[i]).deposit == b1.user(recv[i]).deposit + charge_of(
            b1.user(recv[i]),
            diff,
        ));
    }
    lemma_sum_credited(b, b2, recv, diff);
}

} // verus!
