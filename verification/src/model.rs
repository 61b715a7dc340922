//! The mathematical model of the book: ghost views of the records, the
//! transition functions of the exposure and rebalancing engine, and the book
//! invariants. Every public operation of [`crate::contract::Contract`] is
//! specified as one of these transitions.

use vstd::prelude::*;

use crate::types::{Position, Side, SwapStatus, User, Swap};

verus! {

/// Ghost view of a `User`.
#[verifier::ext_equal]
pub ghost struct UserV {
    pub address: u64,
    pub deposit: u128,
    pub position: Position,
    pub exposure: u128,
    pub swaps: Seq<u64>,
}

impl UserV {
    /// The record an absent address stands for: no collateral, flat, no swaps.
    pub open spec fn fresh(address: u64) -> UserV {
        UserV { address, deposit: 0, position: Position::Flat, exposure: 0, swaps: Seq::empty() }
    }
}

/// Ghost view of a `Swap`; the bids become a map.
#[verifier::ext_equal]
pub ghost struct SwapV {
    pub id: u64,
    pub owner: u64,
    pub side: Side,
    pub amount: u128,
    pub participants: Map<u64, u128>,
    pub counterparty: u64,
    pub maturity: u128,
    pub pay_rate: u128,
    pub receive_rate: u128,
    pub status: SwapStatus,
}

/// Ghost view of the whole book.
#[verifier::ext_equal]
pub ghost struct BookV {
    /// Stored account records by address; an address outside the domain
    /// stands for a fresh account.
    pub users: Map<u64, UserV>,
    pub fixlist: Seq<u64>,
    pub floatlist: Seq<u64>,
    pub defaultlist: Seq<u64>,
    /// Stored swap records by id.
    pub swaps: Map<u64, SwapV>,
    /// Source of new swap ids.
    pub counter: u64,
    /// The mark-to-market reference price.
    pub price: u128,
    /// The privileged address, if construction has happened.
    pub owner: Option<u64>,
}

// ------------------------------------------------------------------
// Keyed record sequences folded into maps
// ------------------------------------------------------------------

/// The map held by a sequence of account records.
pub open spec fn users_map(s: Seq<User>) -> Map<u64, UserV>
    decreases s.len(),
{
    if s.len() == 0 {
        Map::empty()
    } else {
        users_map(s.drop_last()).insert(s.last().address, s.last()@)
    }
}

/// Account records carry pairwise distinct addresses.
pub open spec fn users_distinct(s: Seq<User>) -> bool {
    forall|i: int, j: int|
        0 <= i < s.len() && 0 <= j < s.len() && i != j ==> s[i].address != s[j].address
}

/// The map held by a sequence of swap records.
pub open spec fn swaps_map(s: Seq<Swap>) -> Map<u64, SwapV>
    decreases s.len(),
{
    if s.len() == 0 {
        Map::empty()
    } else {
        swaps_map(s.drop_last()).insert(s.last().id, s.last()@)
    }
}

/// Swap records carry pairwise distinct ids.
pub open spec fn swaps_distinct(s: Seq<Swap>) -> bool {
    forall|i: int, j: int| 0 <= i < s.len() && 0 <= j < s.len() && i != j ==> s[i].id != s[j].id
}

/// The map held by a sequence of bids.
pub open spec fn bids_map(s: Seq<(u64, u128)>) -> Map<u64, u128>
    decreases s.len(),
{
    if s.len() == 0 {
        Map::empty()
    } else {
        bids_map(s.drop_last()).insert(s.last().0, s.last().1)
    }
}

/// Bids carry pairwise distinct bidder addresses.
pub open spec fn bids_distinct(s: Seq<(u64, u128)>) -> bool {
    forall|i: int, j: int| 0 <= i < s.len() && 0 <= j < s.len() && i != j ==> s[i].0 != s[j].0
}

impl View for User {
    type V = UserV;

    open spec fn view(&self) -> UserV {
        UserV {
            address: self.address,
            deposit: self.deposit,
            position: self.position,
            exposure: self.exposure,
            swaps: self.swaps@,
        }
    }
}

impl View for Swap {
    type V = SwapV;

    open spec fn view(&self) -> SwapV {
        SwapV {
            id: self.id,
            owner: self.owner,
            side: self.side,
            amount: self.amount,
            participants: bids_map(self.participants@),
            counterparty: self.counterparty,
            maturity: self.maturity,
            pay_rate: self.pay_rate,
            receive_rate: self.receive_rate,
            status: self.status,
        }
    }
}

// ------------------------------------------------------------------
// Lemmas about the folds
// ------------------------------------------------------------------

pub proof fn lemma_users_map_dom(s: Seq<User>)
    ensures
        forall|k: u64|
            #[trigger] users_map(s).dom().contains(k) <==> exists|i: int|
                0 <= i < s.len() && s[i].address == k,
    decreases s.len(),
{
    if s.len() > 0 {
        let dl = s.drop_last();
        lemma_users_map_dom(dl);
        assert forall|k: u64| #[trigger] users_map(s).dom().contains(k) implies exists|i: int|
            0 <= i < s.len() && s[i].address == k by {
            if k == s.last().address {
                assert(s[s.len() - 1].address == k);
            } else {
                assert(users_map(s) == users_map(dl).insert(s.last().address, s.last()@));
                assert(users_map(dl).dom().contains(k));
                let i = choose|i: int| 0 <= i < dl.len() && dl[i].address == k;
                assert(dl[i] == s[i]);
                assert(s[i].address == k);
            }
        }
        assert forall|k: u64| (exists|i: int| 0 <= i < s.len() && s[i].address == k) implies
            #[trigger] users_map(s).dom().contains(k) by {
            let i = choose|i: int| 0 <= i < s.len() && s[i].address == k;
            assert(users_map(s) == users_map(dl).insert(s.last().address, s.last()@));
            if i < s.len() - 1 {
                assert(dl[i] == s[i]);
                assert(dl[i].address == k);
                assert(users_map(dl).dom().contains(k));
            }
        }
    }
}

pub proof fn lemma_users_map_index(s: Seq<User>, i: int)
    requires
        users_distinct(s),
        0 <= i < s.len(),
    ensures
        users_map(s).dom().contains(s[i].address),
        users_map(s)[s[i].address] == s[i]@,
    decreases s.len(),
{
    let dl = s.drop_last();
    if i == s.len() - 1 {
    } else {
        assert(users_distinct(dl));
        lemma_users_map_index(dl, i);
        assert(s[i].address != s.last().address);
    }
}

pub proof fn lemma_users_map_update(s: Seq<User>, i: int, u: User)
    requires
        users_distinct(s),
        0 <= i < s.len(),
        u.address == s[i].address,
    ensures
        users_map(s.update(i, u)) == users_map(s).insert(u.address, u@),
        users_distinct(s.update(i, u)),
    decreases s.len(),
{
    let s2 = s.update(i, u);
    let dl = s.drop_last();
    if i == s.len() - 1 {
        assert(s2.drop_last() =~= dl);
        assert(s2.last() == u);
        assert(users_map(dl).insert(s.last().address, s.last()@).insert(u.address, u@) =~= users_map(
            dl,
        ).insert(u.address, u@));
    } else {
        assert(s2.drop_last() =~= dl.update(i, u));
        assert(s2.last() == s.last());
        assert(users_distinct(dl));
        lemma_users_map_update(dl, i, u);
        assert(u.address != s.last().address);
        assert(users_map(dl).insert(u.address, u@).insert(s.last().address, s.last()@)
            =~= users_map(dl).insert(s.last().address, s.last()@).insert(u.address, u@));
    }
}

pub proof fn lemma_users_map_push(s: Seq<User>, u: User)
    requires
        users_distinct(s),
        forall|i: int| 0 <= i < s.len() ==> s[i].address != u.address,
    ensures
        users_map(s.push(u)) == users_map(s).insert(u.address, u@),
        users_distinct(s.push(u)),
{
    assert(s.push(u).drop_last() =~= s);
    assert(s.push(u).last() == u);
}

pub proof fn lemma_swaps_map_dom(s: Seq<Swap>)
    ensures
        forall|k: u64|
            #[trigger] swaps_map(s).dom().contains(k) <==> exists|i: int|
                0 <= i < s.len() && s[i].id == k,
    decreases s.len(),
{
    if s.len() > 0 {
        let dl = s.drop_last();
        lemma_swaps_map_dom(dl);
        assert forall|k: u64| #[trigger] swaps_map(s).dom().contains(k) implies exists|i: int|
            0 <= i < s.len() && s[i].id == k by {
            if k == s.last().id {
                assert(s[s.len() - 1].id == k);
            } else {
                assert(swaps_map(s) == swaps_map(dl).insert(s.last().id, s.last()@));
                assert(swaps_map(dl).dom().contains(k));
                let i = choose|i: int| 0 <= i < dl.len() && dl[i].id == k;
                assert(dl[i] == s[i]);
                assert(s[i].id == k);
            }
        }
        assert forall|k: u64| (exists|i: int| 0 <= i < s.len() && s[i].id == k) implies
            #[trigger] swaps_map(s).dom().contains(k) by {
            let i = choose|i: int| 0 <= i < s.len() && s[i].id == k;
            assert(swaps_map(s) == swaps_map(dl).insert(s.last().id, s.last()@));
            if i < s.len() - 1 {
                assert(dl[i] == s[i]);
                assert(dl[i].id == k);
                assert(swaps_map(dl).dom().contains(k));
            }
        }
    }
}

pub proof fn lemma_swaps_map_index(s: Seq<Swap>, i: int)
    requires
        swaps_distinct(s),
        0 <= i < s.len(),
    ensures
        swaps_map(s).dom().contains(s[i].id),
        swaps_map(s)[s[i].id] == s[i]@,
    decreases s.len(),
{
    let dl = s.drop_last();
    if i == s.len() - 1 {
    } else {
        assert(swaps_distinct(dl));
        lemma_swaps_map_index(dl, i);
        assert(s[i].id != s.last().id);
    }
}

pub proof fn lemma_swaps_map_update(s: Seq<Swap>, i: int, t: Swap)
    requires
        swaps_distinct(s),
        0 <= i < s.len(),
        t.id == s[i].id,
    ensures
        swaps_map(s.update(i, t)) == swaps_map(s).insert(t.id, t@),
        swaps_distinct(s.update(i, t)),
    decreases s.len(),
{
    let s2 = s.update(i, t);
    let dl = s.drop_last();
    if i == s.len() - 1 {
        assert(s2.drop_last() =~= dl);
        assert(s2.last() == t);
        assert(swaps_map(dl).insert(s.last().id, s.last()@).insert(t.id, t@) =~= swaps_map(
            dl,
        ).insert(t.id, t@));
    } else {
        assert(s2.drop_last() =~= dl.update(i, t));
        assert(s2.last() == s.last());
        assert(swaps_distinct(dl));
        lemma_swaps_map_update(dl, i, t);
        assert(t.id != s.last().id);
        assert(swaps_map(dl).insert(t.id, t@).insert(s.last().id, s.last()@) =~= swaps_map(
            dl,
        ).insert(s.last().id, s.last()@).insert(t.id, t@));
    }
}

pub proof fn lemma_swaps_map_push(s: Seq<Swap>, t: Swap)
    requires
        swaps_distinct(s),
        forall|i: int| 0 <= i < s.len() ==> s[i].id != t.id,
    ensures
        swaps_map(s.push(t)) == swaps_map(s).insert(t.id, t@),
        swaps_distinct(s.push(t)),
{
    assert(s.push(t).drop_last() =~= s);
    assert(s.push(t).last() == t);
}

pub proof fn lemma_bids_map_dom(s: Seq<(u64, u128)>)
    ensures
        forall|k: u64|
            #[trigger] bids_map(s).dom().contains(k) <==> exists|i: int|
                0 <= i < s.len() && s[i].0 == k,
    decreases s.len(),
{
    if s.len() > 0 {
        let dl = s.drop_last();
        lemma_bids_map_dom(dl);
        assert forall|k: u64| #[trigger] bids_map(s).dom().contains(k) implies exists|i: int|
            0 <= i < s.len() && s[i].0 == k by {
            if k == s.last().0 {
                assert(s[s.len() - 1].0 == k);
            } else {
                assert(bids_map(s) == bids_map(dl).insert(s.last().0, s.last().1));
                assert(bids_map(dl).dom().contains(k));
                let i = choose|i: int| 0 <= i < dl.len() && dl[i].0 == k;
                assert(dl[i] == s[i]);
                assert(s[i].0 == k);
            }
        }
        assert forall|k: u64| (exists|i: int| 0 <= i < s.len() && s[i].0 == k) implies
            #[trigger] bids_map(s).dom().contains(k) by {
            let i = choose|i: int| 0 <= i < s.len() && s[i].0 == k;
            assert(bids_map(s) == bids_map(dl).insert(s.last().0, s.last().1));
            if i < s.len() - 1 {
                assert(dl[i] == s[i]);
                assert(dl[i].0 == k);
                assert(bids_map(dl).dom().contains(k));
            }
        }
    }
}

pub proof fn lemma_bids_map_index(s: Seq<(u64, u128)>, i: int)
    requires
        bids_distinct(s),
        0 <= i < s.len(),
    ensures
        bids_map(s).dom().contains(s[i].0),
        bids_map(s)[s[i].0] == s[i].1,
    decreases s.len(),
{
    let dl = s.drop_last();
    if i == s.len() - 1 {
    } else {
        assert(bids_distinct(dl));
        lemma_bids_map_index(dl, i);
        assert(s[i].0 != s.last().0);
    }
}

pub proof fn lemma_bids_map_push(s: Seq<(u64, u128)>, p: (u64, u128))
    requires
        forall|i: int| 0 <= i < s.len() ==> s[i].0 != p.0,
    ensures
        bids_map(s.push(p)) == bids_map(s).insert(p.0, p.1),
{
    assert(s.push(p).drop_last() =~= s);
    assert(s.push(p).last() == p);
}

// ------------------------------------------------------------------
// Duplicate-free sequences standing for sets
// ------------------------------------------------------------------

/// Insert into a duplicate-free sequence standing for a set.
pub open spec fn set_insert(s: Seq<u64>, x: u64) -> Seq<u64> {
    if s.contains(x) {
        s
    } else {
        s.push(x)
    }
}

/// Remove from a duplicate-free sequence standing for a set.
pub open spec fn set_remove(s: Seq<u64>, x: u64) -> Seq<u64> {
    s.remove_value(x)
}

pub proof fn lemma_set_insert(s: Seq<u64>, x: u64)
    requires
        s.no_duplicates(),
    ensures
        set_insert(s, x).no_duplicates(),
        forall|y: u64| #[trigger] set_insert(s, x).contains(y) <==> (s.contains(y) || y == x),
{
    if !s.contains(x) {
        let s2 = s.push(x);
        assert forall|y: u64| #[trigger] s2.contains(y) implies (s.contains(y) || y == x) by {
            let i = choose|i: int| 0 <= i < s2.len() && s2[i] == y;
            if i < s.len() {
                assert(s[i] == y);
            }
        }
        assert forall|y: u64| (s.contains(y) || y == x) implies #[trigger] s2.contains(y) by {
            if s.contains(y) {
                let i = choose|i: int| 0 <= i < s.len() && s[i] == y;
                assert(s2[i] == y);
            } else {
                assert(s2[s.len() as int] == x);
            }
        }
    }
}

pub proof fn lemma_set_remove(s: Seq<u64>, x: u64)
    requires
        s.no_duplicates(),
    ensures
        set_remove(s, x).no_duplicates(),
        forall|y: u64| #[trigger] set_remove(s, x).contains(y) <==> (s.contains(y) && y != x),
{
    s.index_of_first_ensures(x);
    match s.index_of_first(x) {
        Option::Some(i) => {
            let s2 = s.remove(i);
            s.remove_ensures(i);
            assert forall|y: u64| #[trigger] s2.contains(y) implies (s.contains(y) && y != x) by {
                let j = choose|j: int| 0 <= j < s2.len() && s2[j] == y;
                if j < i {
                    assert(s[j] == y);
                    assert(s[j] != s[i]);
                } else {
                    assert(s[j + 1] == y);
                    assert(s[j + 1] != s[i]);
                }
            }
            assert forall|y: u64| (s.contains(y) && y != x) implies #[trigger] s2.contains(y) by {
                let j = choose|j: int| 0 <= j < s.len() && s[j] == y;
                if j < i {
                    assert(s2[j] == y);
                } else {
                    assert(j != i);
                    assert(s2[j - 1] == y);
                }
            }
            assert forall|a: int, b: int|
                0 <= a < s2.len() && 0 <= b < s2.len() && a != b implies s2[a] != s2[b] by {
                let a0: int = if a < i { a } else { a + 1 };
                let b0: int = if b < i { b } else { b + 1 };
                assert(s2[a] == s[a0]);
                assert(s2[b] == s[b0]);
            }
        },
        Option::None => {
            assert forall|y: u64| s.contains(y) && y != x implies #[trigger] set_remove(
                s,
                x,
            ).contains(y) by {}
        },
    }
}

// ------------------------------------------------------------------
// The book's lookup and invariants
// ------------------------------------------------------------------

impl BookV {
    /// The account stored at `address`, or a fresh account if none is.
    pub open spec fn user(self, address: u64) -> UserV {
        if self.users.dom().contains(address) {
            self.users[address]
        } else {
            UserV::fresh(address)
        }
    }
}

/// Position/exposure agreement for one account: it is flat exactly when it
/// has no exposure.
pub open spec fn user_pos_ok(u: UserV) -> bool {
    (u.position == Position::Flat) <==> (u.exposure == 0)
}

/// Position/exposure agreement across the whole book.
pub open spec fn positions_ok(b: BookV) -> bool {
    forall|a: u64| user_pos_ok(#[trigger] b.user(a))
}

/// Structural soundness of the book: records agree with their keys, the
/// membership lists are duplicate-free, the two side lists are mutually
/// exclusive, a flat account is listed on neither side, and every stored swap
/// id was issued by the counter.
pub open spec fn book_inv(b: BookV) -> bool {
    &&& b.fixlist.no_duplicates()
    &&& b.floatlist.no_duplicates()
    &&& b.defaultlist.no_duplicates()
    &&& forall|a: u64| #[trigger] b.fixlist.contains(a) ==> !b.floatlist.contains(a)
    &&& forall|a: u64|
        (#[trigger] b.user(a)).position == Position::Flat ==> !b.fixlist.contains(a)
            && !b.floatlist.contains(a)
    &&& forall|a: u64| (#[trigger] b.user(a)).swaps.no_duplicates()
    &&& forall|a: u64| (#[trigger] b.user(a)).address == a
    &&& forall|k: u64| #[trigger] b.swaps.dom().contains(k) ==> b.swaps[k].id == k
    &&& forall|k: u64| #[trigger] b.swaps.dom().contains(k) ==> 1 <= k <= b.counter
}

// ------------------------------------------------------------------
// The exposure engine: opening
// ------------------------------------------------------------------

/// Whether opening `amount` on `side` stays within the balance type. Only the
/// magnitude-growing branches can overflow; an offset or a flip only ever
/// shrinks below the larger operand.
pub open spec fn open_ok(b: BookV, address: u64, amount: u128, side: Side) -> bool {
    let u = b.user(address);
    if u.position == side.position() || u.position == Position::Flat {
        u.exposure + amount <= u128::MAX
    } else {
        true
    }
}

/// The book after opening exposure `amount` on `side` for `address`, with
/// `swap_id` recorded as active. Meaningful on inputs where
/// [`open_ok`] holds.
///
/// The three branches of the engine: same side grows the magnitude, an
/// opposing amount within the current exposure offsets it, and a larger
/// opposing amount flips the account to the other side with the excess as its
/// new exposure. A first exposure of a flat account takes the chosen side;
/// only a fixed first exposure creates side-list membership — a floating
/// first exposure deliberately does not, a documented asymmetry of the
/// engine.
pub open spec fn open_apply(b: BookV, address: u64, amount: u128, side: Side, swap_id: u64) -> BookV {
    let u = b.user(address);
    if u.position == side.position() {
        let u2 = UserV {
            exposure: (u.exposure + amount) as u128,
            swaps: set_insert(u.swaps, swap_id),
            ..u
        };
        BookV { users: b.users.insert(address, u2), ..b }
    } else if u.position == Position::Flat {
        let u2 = UserV {
            position: side.position(),
            exposure: (u.exposure + amount) as u128,
            swaps: set_insert(u.swaps, swap_id),
            ..u
        };
        let fl = if side == Side::Fixed {
            set_insert(b.fixlist, address)
        } else {
            b.fixlist
        };
        BookV { users: b.users.insert(address, u2), fixlist: fl, ..b }
    } else if amount <= u.exposure {
        let u2 = UserV { exposure: (u.exposure - amount) as u128, ..u };
        BookV { users: b.users.insert(address, u2), ..b }
    } else {
        let u2 = UserV {
            position: side.position(),
            exposure: (amount - u.exposure) as u128,
            swaps: set_insert(u.swaps, swap_id),
            ..u
        };
        match side {
            Side::Fixed => BookV {
                users: b.users.insert(address, u2),
                fixlist: set_insert(b.fixlist, address),
                floatlist: set_remove(b.floatlist, address),
                ..b
            },
            Side::Floating => BookV {
                users: b.users.insert(address, u2),
                floatlist: set_insert(b.floatlist, address),
                fixlist: set_remove(b.fixlist, address),
                ..b
            },
        }
    }
}

// ------------------------------------------------------------------
// The exposure engine: closing
// ------------------------------------------------------------------

/// Whether closing `amount` on `side` stays within the balance type.
pub open spec fn close_ok(b: BookV, address: u64, amount: u128, side: Side) -> bool {
    let u = b.user(address);
    if u.position != side.position() {
        u.exposure + amount <= u128::MAX
    } else {
        true
    }
}

/// The book after closing `amount` of the swap `swap_id` held on `side` for
/// `address`. Closing a swap is the signed opposite of opening it: an account
/// not positioned on the swap's side grows, one on the swap's side shrinks or
/// flips to the opposite side. The swap id leaves the account's active set in
/// every branch, and — unlike opening — a flip never touches the side lists,
/// a documented asymmetry of the engine.
pub open spec fn close_apply(b: BookV, address: u64, amount: u128, side: Side, swap_id: u64) -> BookV {
    let u = b.user(address);
    let u2 = if u.position != side.position() {
        UserV { exposure: (u.exposure + amount) as u128, swaps: set_remove(u.swaps, swap_id), ..u }
    } else if amount <= u.exposure {
        UserV { exposure: (u.exposure - amount) as u128, swaps: set_remove(u.swaps, swap_id), ..u }
    } else {
        UserV {
            position: side.opposite().position(),
            exposure: (amount - u.exposure) as u128,
            swaps: set_remove(u.swaps, swap_id),
            ..u
        }
    };
    BookV { users: b.users.insert(address, u2), ..b }
}

// ------------------------------------------------------------------
// Default unwind
// ------------------------------------------------------------------

/// One swap of a defaulting account: its status becomes `Defaulted` and its
/// id joins the default list.
pub open spec fn mark_defaulted(b: BookV, sid: u64) -> BookV {
    if b.swaps.dom().contains(sid) {
        let s = b.swaps[sid];
        BookV {
            swaps: b.swaps.insert(sid, SwapV { status: SwapStatus::Defaulted, ..s }),
            defaultlist: set_insert(b.defaultlist, sid),
            ..b
        }
    } else {
        b
    }
}

pub open spec fn defaults_fold(b: BookV, sids: Seq<u64>) -> BookV
    decreases sids.len(),
{
    if sids.len() == 0 {
        b
    } else {
        mark_defaulted(defaults_fold(b, sids.drop_last()), sids.last())
    }
}

/// Whether every swap of the account exists in the store, so that the unwind
/// cannot hit a missing record.
pub open spec fn default_ok(b: BookV, address: u64) -> bool {
    forall|i: int|
        0 <= i < b.user(address).swaps.len() ==> b.swaps.dom().contains(
            #[trigger] b.user(address).swaps[i],
        )
}

/// Forced liquidation of an account: every swap it participates in is marked
/// defaulted and listed, the remaining collateral is forfeited, the account
/// is reset to a fresh record, and its side-list membership ends.
pub open spec fn default_apply(b: BookV, address: u64) -> BookV {
    let u = b.user(address);
    let b2 = defaults_fold(b, u.swaps);
    BookV {
        users: b2.users.insert(address, UserV::fresh(address)),
        fixlist: set_remove(b2.fixlist, address),
        floatlist: set_remove(b2.floatlist, address),
        ..b2
    }
}

// ------------------------------------------------------------------
// Mark to market
// ------------------------------------------------------------------

/// The collateral an account owes (or is owed) for a price move of `diff`.
pub open spec fn charge_of(u: UserV, diff: u128) -> int {
    u.exposure * diff
}

/// A paying account covers its charge exactly when its deposit strictly
/// exceeds it; otherwise it defaults.
pub open spec fn pays(u: UserV, diff: u128) -> bool {
    u.deposit > charge_of(u, diff)
}

/// One paying account: pay the charge, or default when collateral is
/// exhausted.
pub open spec fn charge_one(b: BookV, address: u64, diff: u128) -> BookV {
    let u = b.user(address);
    if pays(u, diff) {
        let u2 = UserV { deposit: (u.deposit - charge_of(u, diff)) as u128, ..u };
        BookV { users: b.users.insert(address, u2), ..b }
    } else {
        default_apply(b, address)
    }
}

pub open spec fn charge_fold(b: BookV, addrs: Seq<u64>, diff: u128) -> BookV
    decreases addrs.len(),
{
    if addrs.len() == 0 {
        b
    } else {
        charge_one(charge_fold(b, addrs.drop_last(), diff), addrs.last(), diff)
    }
}

/// Whether charging `address` can be carried out: the charge fits the
/// balance type, and if the account defaults, its swaps all exist.
pub open spec fn charge_ok(b: BookV, address: u64, diff: u128) -> bool {
    let u = b.user(address);
    &&& charge_of(u, diff) <= u128::MAX
    &&& (pays(u, diff) || default_ok(b, address))
}

pub open spec fn charges_ok(b: BookV, addrs: Seq<u64>, diff: u128) -> bool {
    forall|i: int| 0 <= i < addrs.len() ==> charge_ok(b, #[trigger] addrs[i], diff)
}

/// One receiving account: its deposit grows by its charge, unconditionally.
pub open spec fn credit_one(b: BookV, address: u64, diff: u128) -> BookV {
    let u = b.user(address);
    let u2 = UserV { deposit: (u.deposit + charge_of(u, diff)) as u128, ..u };
    BookV { users: b.users.insert(address, u2), ..b }
}

pub open spec fn credit_fold(b: BookV, addrs: Seq<u64>, diff: u128) -> BookV
    decreases addrs.len(),
{
    if addrs.len() == 0 {
        b
    } else {
        credit_one(credit_fold(b, addrs.drop_last(), diff), addrs.last(), diff)
    }
}

/// Whether crediting `address` stays within the balance type.
pub open spec fn credit_ok(b: BookV, address: u64, diff: u128) -> bool {
    let u = b.user(address);
    &&& charge_of(u, diff) <= u128::MAX
    &&& u.deposit + charge_of(u, diff) <= u128::MAX
}

pub open spec fn credits_ok(b: BookV, addrs: Seq<u64>, diff: u128) -> bool {
    forall|i: int| 0 <= i < addrs.len() ==> credit_ok(b, #[trigger] addrs[i], diff)
}

/// The side that pays for a move to `new_price`: floating pays when the price
/// fell, fixed pays when it rose.
pub open spec fn pay_side(b: BookV, new_price: u128) -> Seq<u64> {
    if new_price < b.price {
        b.floatlist
    } else {
        b.fixlist
    }
}

/// The side that receives for a move to `new_price`.
pub open spec fn recv_side(b: BookV, new_price: u128) -> Seq<u64> {
    if new_price < b.price {
        b.fixlist
    } else {
        b.floatlist
    }
}

/// The magnitude of the price move.
pub open spec fn price_diff(b: BookV, new_price: u128) -> u128 {
    if new_price < b.price {
        (b.price - new_price) as u128
    } else {
        (new_price - b.price) as u128
    }
}

/// Whether a whole mark-to-market pass can be carried out.
pub open spec fn mtm_ok(b: BookV, new_price: u128) -> bool {
    ||| new_price == b.price
    ||| {
        &&& charges_ok(b, pay_side(b, new_price), price_diff(b, new_price))
        &&& credits_ok(b, recv_side(b, new_price), price_diff(b, new_price))
    }
}

/// The book after a mark-to-market pass to `new_price`: every account on the
/// paying side is charged its exposure times the move (or defaults), every
/// account on the receiving side is credited the same, and the reference
/// price becomes `new_price`. An unchanged price changes nothing.
pub open spec fn mtm_apply(b: BookV, new_price: u128) -> BookV {
    if new_price == b.price {
        b
    } else {
        let diff = price_diff(b, new_price);
        let b1 = charge_fold(b, pay_side(b, new_price), diff);
        let b2 = credit_fold(b1, recv_side(b, new_price), diff);
        BookV { price: new_price, ..b2 }
    }
}

// ------------------------------------------------------------------
// Sums over an address list
// ------------------------------------------------------------------

/// Total collateral held by the listed accounts.
pub open spec fn sum_deposits(b: BookV, addrs: Seq<u64>) -> int
    decreases addrs.len(),
{
    if addrs.len() == 0 {
        0
    } else {
        sum_deposits(b, addrs.drop_last()) + b.user(addrs.last()).deposit
    }
}

/// Total exposure held by the listed accounts.
pub open spec fn sum_exposures(b: BookV, addrs: Seq<u64>) -> int
    decreases addrs.len(),
{
    if addrs.len() == 0 {
        0
    } else {
        sum_exposures(b, addrs.drop_last()) + b.user(addrs.last()).exposure
    }
}


// ------------------------------------------------------------------
// Preservation of the book invariant
// ------------------------------------------------------------------

/// Membership in a sequence, split at its last element.
pub proof fn lemma_contains_drop_last(s: Seq<u64>, x: u64)
    requires
        s.len() > 0,
    ensures
        s.contains(x) <==> (s.drop_last().contains(x) || s.last() == x),
{
    let dl = s.drop_last();
    if s.contains(x) {
        let i = choose|i: int| 0 <= i < s.len() && s[i] == x;
        if i < s.len() - 1 {
            assert(dl[i] == x);
        }
    }
    if dl.contains(x) {
        let i = choose|i: int| 0 <= i < dl.len() && dl[i] == x;
        assert(s[i] == x);
    }
    if s.last() == x {
        assert(s[s.len() - 1] == x);
    }
}

/// Replacing one account without touching its position, swap set or address
/// keeps the book invariant.
pub proof fn lemma_user_update_preserves_inv(b: BookV, u2: UserV)
    requires
        book_inv(b),
        u2.address == b.user(u2.address).address,
        u2.position == b.user(u2.address).position,
        u2.swaps == b.user(u2.address).swaps,
    ensures
        book_inv(BookV { users: b.users.insert(u2.address, u2), ..b }),
{
    let address = u2.address;
    let b2 = BookV { users: b.users.insert(address, u2), ..b };
    assert forall|a: u64| a != address implies #[trigger] b2.user(a) == b.user(a) by {}
    assert(b2.user(address) == u2);
    assert forall|a: u64|
        (#[trigger] b2.user(a)).position == Position::Flat implies !b2.fixlist.contains(a)
        && !b2.floatlist.contains(a) by {
        assert(b2.user(a).position == b.user(a).position);
    }
    assert forall|a: u64| (#[trigger] b2.user(a)).swaps.no_duplicates() by {
        assert(b2.user(a).swaps == b.user(a).swaps);
    }
    assert forall|a: u64| (#[trigger] b2.user(a)).address == a by {
        assert(b2.user(a).address == b.user(a).address);
    }
}

/// Replacing one stored swap under its own id keeps the book invariant.
pub proof fn lemma_swap_update_preserves_inv(b: BookV, s2: SwapV)
    requires
        book_inv(b),
        b.swaps.dom().contains(s2.id),
    ensures
        book_inv(BookV { swaps: b.swaps.insert(s2.id, s2), ..b }),
{
    let b2 = BookV { swaps: b.swaps.insert(s2.id, s2), ..b };
    assert forall|a: u64| (#[trigger] b2.user(a)) == b.user(a) by {}
    assert(1 <= s2.id <= b.counter);
}

/// Opening exposure keeps the book invariant.
pub proof fn lemma_open_preserves_inv(b: BookV, address: u64, amount: u128, side: Side, swap_id: u64)
    requires
        book_inv(b),
    ensures
        book_inv(open_apply(b, address, amount, side, swap_id)),
{
    let u = b.user(address);
    let b2 = open_apply(b, address, amount, side, swap_id);
    assert(u.address == address);
    lemma_set_insert(u.swaps, swap_id);
    lemma_set_insert(b.fixlist, address);
    lemma_set_insert(b.floatlist, address);
    lemma_set_remove(b.fixlist, address);
    lemma_set_remove(b.floatlist, address);
    assert forall|a: u64| a != address implies #[trigger] b2.user(a) == b.user(a) by {}
    assert forall|a: u64| (#[trigger] b2.user(a)).swaps.no_duplicates() by {
        if a != address {
            assert(b2.user(a) == b.user(a));
        }
    }
    assert forall|a: u64| (#[trigger] b2.user(a)).address == a by {
        if a != address {
            assert(b2.user(a) == b.user(a));
        }
    }
    assert forall|a: u64|
        (#[trigger] b2.user(a)).position == Position::Flat implies !b2.fixlist.contains(a)
        && !b2.floatlist.contains(a) by {
        if a == address {
            assert(u.position == Position::Flat ==> !b.fixlist.contains(a) && !b.floatlist.contains(
                a,
            ));
        } else {
            assert(b2.user(a) == b.user(a));
            assert(b.user(a).position == Position::Flat ==> !b.fixlist.contains(a)
                && !b.floatlist.contains(a));
        }
    }
    assert forall|a: u64| #[trigger] b2.fixlist.contains(a) implies !b2.floatlist.contains(a) by {
        if a == address {
            assert(u.position == Position::Flat ==> !b.floatlist.contains(a));
        }
    }
}

/// Closing exposure keeps the book invariant.
pub proof fn lemma_close_preserves_inv(
    b: BookV,
    address: u64,
    amount: u128,
    side: Side,
    swap_id: u64,
)
    requires
        book_inv(b),
    ensures
        book_inv(close_apply(b, address, amount, side, swap_id)),
{
    let u = b.user(address);
    let b2 = close_apply(b, address, amount, side, swap_id);
    assert(u.address == address);
    lemma_set_remove(u.swaps, swap_id);
    assert forall|a: u64| a != address implies #[trigger] b2.user(a) == b.user(a) by {}
    assert forall|a: u64| (#[trigger] b2.user(a)).swaps.no_duplicates() by {
        if a != address {
            assert(b2.user(a) == b.user(a));
        }
    }
    assert forall|a: u64| (#[trigger] b2.user(a)).address == a by {
        if a != address {
            assert(b2.user(a) == b.user(a));
        }
    }
    assert forall|a: u64|
        (#[trigger] b2.user(a)).position == Position::Flat implies !b2.fixlist.contains(a)
        && !b2.floatlist.contains(a) by {
        if a == address {
            assert(b2.user(a).position == Position::Flat ==> u.position == Position::Flat);
        } else {
            assert(b2.user(a) == b.user(a));
        }
    }
}

/// What the unwind of a list of swap ids does and does not touch.
pub proof fn lemma_defaults_fold_frame(b: BookV, sids: Seq<u64>)
    requires
        b.defaultlist.no_duplicates(),
    ensures
        defaults_fold(b, sids).users == b.users,
        defaults_fold(b, sids).fixlist == b.fixlist,
        defaults_fold(b, sids).floatlist == b.floatlist,
        defaults_fold(b, sids).counter == b.counter,
        defaults_fold(b, sids).price == b.price,
        defaults_fold(b, sids).owner == b.owner,
        defaults_fold(b, sids).swaps.dom() == b.swaps.dom(),
        forall|k: u64|
            b.swaps.dom().contains(k) && !sids.contains(k) ==> defaults_fold(b, sids).swaps[k]
                == b.swaps[k],
        forall|k: u64|
            b.swaps.dom().contains(k) && #[trigger] sids.contains(k) ==> defaults_fold(
                b,
                sids,
            ).swaps[k] == (SwapV { status: SwapStatus::Defaulted, ..b.swaps[k] }),
        defaults_fold(b, sids).defaultlist.no_duplicates(),
        forall|y: u64|
            #[trigger] defaults_fold(b, sids).defaultlist.contains(y) <==> (
            b.defaultlist.contains(y) || (sids.contains(y) && b.swaps.dom().contains(y))),
    decreases sids.len(),
{
    if sids.len() > 0 {
        let dl = sids.drop_last();
        let x = sids.last();
        lemma_defaults_fold_frame(b, dl);
        let c1 = defaults_fold(b, dl);
        let c = defaults_fold(b, sids);
        assert(c == mark_defaulted(c1, x));
        assert forall|y: u64| #[trigger] sids.contains(y) <==> (dl.contains(y) || y == x) by {
            lemma_contains_drop_last(sids, y);
        }
        if c1.swaps.dom().contains(x) {
            lemma_set_insert(c1.defaultlist, x);
            assert(c.swaps.dom() =~= b.swaps.dom());
            assert forall|k: u64|
                b.swaps.dom().contains(k) && #[trigger] sids.contains(k) implies c.swaps[k] == (
            SwapV { status: SwapStatus::Defaulted, ..b.swaps[k] }) by {
                if k == x {
                    assert(c.swaps[k] == (SwapV { status: SwapStatus::Defaulted, ..c1.swaps[x] }));
                    if dl.contains(x) {
                        assert(c1.swaps[x] == (SwapV {
                            status: SwapStatus::Defaulted,
                            ..b.swaps[x]
                        }));
                        assert(c.swaps[k] =~~= (SwapV { status: SwapStatus::Defaulted, ..b.swaps[k] }));
                    }
                } else {
                    assert(c.swaps[k] == c1.swaps[k]);
                }
            }
        } else {
            assert(c == c1);
            assert(!b.swaps.dom().contains(x));
        }
    }
}

/// What a forced default does to each part of the book, and that it keeps
/// the invariant.
pub proof fn lemma_default_apply(b: BookV, address: u64)
    requires
        book_inv(b),
    ensures
        book_inv(default_apply(b, address)),
        default_apply(b, address).user(address) == UserV::fresh(address),
        forall|a: u64| a != address ==> #[trigger] default_apply(b, address).user(a) == b.user(a),
        default_apply(b, address).swaps.dom() == b.swaps.dom(),
        forall|k: u64|
            b.swaps.dom().contains(k) && #[trigger] b.user(address).swaps.contains(k)
                ==> default_apply(b, address).swaps[k] == (SwapV {
                status: SwapStatus::Defaulted,
                ..b.swaps[k]
            }),
        forall|k: u64|
            b.swaps.dom().contains(k) && !b.user(address).swaps.contains(k) ==> default_apply(
                b,
                address,
            ).swaps[k] == b.swaps[k],
        default_apply(b, address).fixlist == set_remove(b.fixlist, address),
        default_apply(b, address).floatlist == set_remove(b.floatlist, address),
        forall|y: u64|
            #[trigger] default_apply(b, address).defaultlist.contains(y) <==> (
            b.defaultlist.contains(y) || (b.user(address).swaps.contains(y)
                && b.swaps.dom().contains(y))),
        default_apply(b, address).counter == b.counter,
        default_apply(b, address).price == b.price,
        default_apply(b, address).owner == b.owner,
{
    let u = b.user(address);
    lemma_defaults_fold_frame(b, u.swaps);
    let b2 = defaults_fold(b, u.swaps);
    let c = default_apply(b, address);
    lemma_set_remove(b.fixlist, address);
    lemma_set_remove(b.floatlist, address);
    assert forall|a: u64| a != address implies #[trigger] c.user(a) == b.user(a) by {}
    assert(c.user(address) == UserV::fresh(address));
    // the invariant, conjunct by conjunct
    assert forall|a: u64| #[trigger] c.fixlist.contains(a) implies !c.floatlist.contains(a) by {
        assert(b.fixlist.contains(a));
    }
    assert forall|a: u64|
        (#[trigger] c.user(a)).position == Position::Flat implies !c.fixlist.contains(a)
        && !c.floatlist.contains(a) by {
        if a != address {
            assert(c.user(a) == b.user(a));
        }
    }
    assert forall|a: u64| (#[trigger] c.user(a)).swaps.no_duplicates() by {
        if a != address {
            assert(c.user(a) == b.user(a));
        }
    }
    assert forall|a: u64| (#[trigger] c.user(a)).address == a by {
        if a != address {
            assert(c.user(a) == b.user(a));
        }
    }
    assert forall|k: u64| #[trigger] c.swaps.dom().contains(k) implies c.swaps[k].id == k && 1 <= k
        <= c.counter by {
        assert(b.swaps.dom().contains(k));
        if u.swaps.contains(k) {
            assert(c.swaps[k] == (SwapV { status: SwapStatus::Defaulted, ..b.swaps[k] }));
        } else {
            assert(c.swaps[k] == b.swaps[k]);
        }
    }
}

/// What charging a whole side does to each account: listed accounts pay or
/// default, all others are untouched, and the invariant is kept.
pub proof fn lemma_charge_fold_frame(b: BookV, addrs: Seq<u64>, diff: u128)
    requires
        book_inv(b),
        addrs.no_duplicates(),
        charges_ok(b, addrs, diff),
    ensures
        book_inv(charge_fold(b, addrs, diff)),
        forall|a: u64|
            !addrs.contains(a) ==> #[trigger] charge_fold(b, addrs, diff).user(a) == b.user(a),
        forall|i: int|
            0 <= i < addrs.len() ==> charge_fold(b, addrs, diff).user(#[trigger] addrs[i]) == (
            if pays(b.user(addrs[i]), diff) {
                (UserV {
                    deposit: (b.user(addrs[i]).deposit - charge_of(b.user(addrs[i]), diff)) as u128,
                    ..b.user(addrs[i])
                })
            } else {
                UserV::fresh(addrs[i])
            }),
        charge_fold(b, addrs, diff).swaps.dom() == b.swaps.dom(),
        charge_fold(b, addrs, diff).counter == b.counter,
        charge_fold(b, addrs, diff).price == b.price,
        charge_fold(b, addrs, diff).owner == b.owner,
    decreases addrs.len(),
{
    if addrs.len() > 0 {
        let dl = addrs.drop_last();
        let x = addrs.last();
        assert(charges_ok(b, dl, diff)) by {
            assert forall|i: int| 0 <= i < dl.len() implies charge_ok(b, #[trigger] dl[i], diff) by {
                assert(dl[i] == addrs[i]);
            }
        }
        lemma_charge_fold_frame(b, dl, diff);
        let c1 = charge_fold(b, dl, diff);
        let c = charge_fold(b, addrs, diff);
        assert(c == charge_one(c1, x, diff));
        assert(!dl.contains(x)) by {
            if dl.contains(x) {
                let i = choose|i: int| 0 <= i < dl.len() && dl[i] == x;
                assert(addrs[i] == addrs[addrs.len() - 1]);
            }
        }
        assert(c1.user(x) == b.user(x));
        assert(charge_ok(b, x, diff)) by {
            assert(addrs[addrs.len() - 1] == x);
        }
        let u = b.user(x);
        if pays(u, diff) {
            let u2 = UserV { deposit: (u.deposit - charge_of(u, diff)) as u128, ..u };
            assert(c == (BookV { users: c1.users.insert(x, u2), ..c1 }));
            lemma_user_update_preserves_inv(c1, u2);
            assert forall|a: u64| !addrs.contains(a) implies #[trigger] c.user(a) == b.user(a) by {
                lemma_contains_drop_last(addrs, a);
                assert(c.user(a) == c1.user(a));
            }
            assert forall|i: int|
                0 <= i < addrs.len() implies c.user(#[trigger] addrs[i]) == (
            if pays(b.user(addrs[i]), diff) {
                (UserV {
                    deposit: (b.user(addrs[i]).deposit - charge_of(b.user(addrs[i]), diff)) as u128,
                    ..b.user(addrs[i])
                })
            } else {
                UserV::fresh(addrs[i])
            }) by {
                if i < addrs.len() - 1 {
                    assert(addrs[i] == dl[i]);
                    assert(addrs[i] != x);
                    assert(c.user(addrs[i]) == c1.user(addrs[i]));
                }
            }
        } else {
            assert(default_ok(b, x));
            assert(c == default_apply(c1, x));
            lemma_default_apply(c1, x);
            assert forall|a: u64| !addrs.contains(a) implies #[trigger] c.user(a) == b.user(a) by {
                lemma_contains_drop_last(addrs, a);
                assert(c.user(a) == c1.user(a));
            }
            assert forall|i: int|
                0 <= i < addrs.len() implies c.user(#[trigger] addrs[i]) == (
            if pays(b.user(addrs[i]), diff) {
                (UserV {
                    deposit: (b.user(addrs[i]).deposit - charge_of(b.user(addrs[i]), diff)) as u128,
                    ..b.user(addrs[i])
                })
            } else {
                UserV::fresh(addrs[i])
            }) by {
                if i < addrs.len() - 1 {
                    assert(addrs[i] == dl[i]);
                    assert(addrs[i] != x);
                    assert(c.user(addrs[i]) == c1.user(addrs[i]));
                }
            }
            assert(c.swaps.dom() =~= b.swaps.dom());
        }
    }
}

/// What crediting a whole side does to each account: listed accounts gain
/// their charge, all others are untouched, and the invariant is kept.
pub proof fn lemma_credit_fold_frame(b: BookV, addrs: Seq<u64>, diff: u128)
    requires
        book_inv(b),
        addrs.no_duplicates(),
        credits_ok(b, addrs, diff),
    ensures
        book_inv(credit_fold(b, addrs, diff)),
        forall|a: u64|
            !addrs.contains(a) ==> #[trigger] credit_fold(b, addrs, diff).user(a) == b.user(a),
        forall|i: int|
            0 <= i < addrs.len() ==> credit_fold(b, addrs, diff).user(#[trigger] addrs[i]) == (
            UserV {
                deposit: (b.user(addrs[i]).deposit + charge_of(b.user(addrs[i]), diff)) as u128,
                ..b.user(addrs[i])
            }),
        credit_fold(b, addrs, diff).swaps == b.swaps,
        credit_fold(b, addrs, diff).fixlist == b.fixlist,
        credit_fold(b, addrs, diff).floatlist == b.floatlist,
        credit_fold(b, addrs, diff).defaultlist == b.defaultlist,
        credit_fold(b, addrs, diff).counter == b.counter,
        credit_fold(b, addrs, diff).price == b.price,
        credit_fold(b, addrs, diff).owner == b.owner,
    decreases addrs.len(),
{
    if addrs.len() > 0 {
        let dl = addrs.drop_last();
        let x = addrs.last();
        assert(credits_ok(b, dl, diff)) by {
            assert forall|i: int| 0 <= i < dl.len() implies credit_ok(b, #[trigger] dl[i], diff) by {
                assert(dl[i] == addrs[i]);
            }
        }
        lemma_credit_fold_frame(b, dl, diff);
        let c1 = credit_fold(b, dl, diff);
        let c = credit_fold(b, addrs, diff);
        assert(c == credit_one(c1, x, diff));
        assert(!dl.contains(x)) by {
            if dl.contains(x) {
                let i = choose|i: int| 0 <= i < dl.len() && dl[i] == x;
                assert(addrs[i] == addrs[addrs.len() - 1]);
            }
        }
        assert(c1.user(x) == b.user(x));
        let u = b.user(x);
        let u2 = UserV { deposit: (u.deposit + charge_of(u, diff)) as u128, ..u };
        assert(c == (BookV { users: c1.users.insert(x, u2), ..c1 }));
        lemma_user_update_preserves_inv(c1, u2);
        assert forall|a: u64| !addrs.contains(a) implies #[trigger] c.user(a) == b.user(a) by {
            lemma_contains_drop_last(addrs, a);
            assert(c.user(a) == c1.user(a));
        }
        assert forall|i: int|
            0 <= i < addrs.len() implies c.user(#[trigger] addrs[i]) == (UserV {
            deposit: (b.user(addrs[i]).deposit + charge_of(b.user(addrs[i]), diff)) as u128,
            ..b.user(addrs[i])
        }) by {
            if i < addrs.len() - 1 {
                assert(addrs[i] == dl[i]);
                assert(addrs[i] != x);
                assert(c.user(addrs[i]) == c1.user(addrs[i]));
            }
        }
    }
}

/// Whether `e * d` fits the balance type, decided by one division.
pub proof fn lemma_mul_fits(e: u128, d: u128)
    requires
        d > 0,
    ensures
        (e as int) * (d as int) <= u128::MAX as int <==> e as int <= (u128::MAX as int) / (d as int),
{
    let m = u128::MAX as int;
    let ei = e as int;
    let di = d as int;
    let q = m / di;
    vstd::arithmetic::div_mod::lemma_fundamental_div_mod(m, di);
    vstd::arithmetic::div_mod::lemma_mod_division_less_than_divisor(m, di);
    if ei <= q {
        assert(ei * di <= q * di) by (nonlinear_arith)
            requires
                ei <= q,
                di > 0,
        ;
        assert(q * di <= m);
    } else {
        assert(ei * di >= (q + 1) * di) by (nonlinear_arith)
            requires
                ei >= q + 1,
                di > 0,
        ;
        assert((q + 1) * di == q * di + di) by (nonlinear_arith);
        assert(q * di + di > m);
    }
}


/// Some listed account's charge would not fit the balance type.
pub open spec fn charge_overflow_somewhere(b: BookV, addrs: Seq<u64>, diff: u128) -> bool {
    exists|i: int|
        0 <= i < addrs.len() && charge_of(b.user(#[trigger] addrs[i]), diff) > u128::MAX
}

/// Some listed account would default while one of its swaps is missing from
/// the store.
pub open spec fn default_missing_somewhere(b: BookV, addrs: Seq<u64>, diff: u128) -> bool {
    exists|i: int|
        0 <= i < addrs.len() && charge_of(b.user(#[trigger] addrs[i]), diff) <= u128::MAX && !pays(
            b.user(addrs[i]),
            diff,
        ) && !default_ok(b, addrs[i])
}


/// The book invariant reads neither the price nor the owner.
pub proof fn lemma_book_inv_scalars(b: BookV, p: u128, o: Option<u64>)
    requires
        book_inv(b),
    ensures
        book_inv(BookV { price: p, owner: o, ..b }),
{
    let b2 = BookV { price: p, owner: o, ..b };
    assert forall|a: u64| (#[trigger] b2.user(a)) == b.user(a) by {}
}

} // verus!
