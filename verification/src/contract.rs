//! The executable book and its operations. `Contract` holds the named
//! records of the marketplace and exposes the exposure engine, the
//! mark-to-market pass, default unwind and the swap registry. Each operation
//! is specified against the transition functions of [`crate::model`].

use vstd::prelude::*;

use crate::model::{
    bids_distinct, book_inv, charge_fold, charge_of, charge_ok, charge_one,
    charge_overflow_somewhere, charges_ok, close_apply, close_ok, credit_fold, credit_ok,
    credit_one, credits_ok, default_apply, default_missing_somewhere, default_ok, defaults_fold,
    bids_map, lemma_bids_map_dom, lemma_bids_map_index, lemma_bids_map_push,
    lemma_book_inv_scalars, lemma_charge_fold_frame, lemma_close_preserves_inv,
    lemma_credit_fold_frame, lemma_default_apply,
    lemma_defaults_fold_frame, lemma_mul_fits,
    lemma_open_preserves_inv, lemma_swap_update_preserves_inv,
    lemma_swaps_map_dom, lemma_swaps_map_index, lemma_swaps_map_push, lemma_swaps_map_update,
    lemma_user_update_preserves_inv, lemma_users_map_dom, lemma_users_map_index,
    lemma_users_map_push, lemma_users_map_update, mark_defaulted, mtm_apply, mtm_ok, open_apply,
    open_ok, pay_side, pays, price_diff, recv_side, set_insert, set_remove, swaps_distinct,
    swaps_map, users_distinct, users_map, BookV, SwapV, UserV,
};
use crate::types::{
    Defaultlist, Fixlist, Fixlistsize, Floatlist, Floatlistsize, Ownership, Position, Price, Side,
    Swap, SwapError, SwapStatus, Swaps, User,
};

verus! {

/// The position an exposure on `side` gives an account.
pub fn side_position(side: Side) -> (p: Position)
    ensures
        p == side.position(),
{
    match side {
        Side::Fixed => Position::Fixed,
        Side::Floating => Position::Floating,
    }
}

/// The other side of the book.
pub fn side_opposite(side: Side) -> (r: Side)
    ensures
        r == side.opposite(),
{
    match side {
        Side::Fixed => Side::Floating,
        Side::Floating => Side::Fixed,
    }
}

/// Whether the sequence standing for a set holds `x`.
fn list_contains(v: &Vec<u64>, x: u64) -> (r: bool)
    ensures
        r == v@.contains(x),
{
    let mut i: usize = 0;
    while i < v.len()
        invariant
            i <= v@.len(),
            forall|j: int| 0 <= j < i ==> v@[j] != x,
        decreases v@.len() - i,
    {
        if v[i] == x {
            assert(v@.contains(x));
            return true;
        }
        i = i + 1;
    }
    false
}

/// Set-insert on a duplicate-free sequence.
fn list_insert(v: &mut Vec<u64>, x: u64)
    ensures
        final(v)@ == set_insert(old(v)@, x),
{
    if !list_contains(v, x) {
        v.push(x);
    }
}

/// Index of the first occurrence of `x`, if any.
fn find_id(v: &Vec<u64>, x: u64) -> (r: Option<usize>)
    ensures
        match r {
            Some(i) => i < v@.len() && v@[i as int] == x && forall|j: int|
                0 <= j < i ==> v@[j] != x,
            None => forall|j: int| 0 <= j < v@.len() ==> v@[j] != x,
        },
{
    let mut i: usize = 0;
    while i < v.len()
        invariant
            i <= v@.len(),
            forall|j: int| 0 <= j < i ==> v@[j] != x,
        decreases v@.len() - i,
    {
        if v[i] == x {
            return Some(i);
        }
        i = i + 1;
    }
    None
}

/// Set-remove on a duplicate-free sequence (removes the first occurrence).
fn list_remove(v: &mut Vec<u64>, x: u64)
    ensures
        final(v)@ == set_remove(old(v)@, x),
{
    let ghost s0 = v@;
    match find_id(v, x) {
        Some(i) => {
            proof {
                assert(s0[i as int] == x);
                s0.index_of_first_ensures(x);
                assert(s0.contains(x));
                assert(s0.index_of_first(x) == Some(i as int));
            }
            let _ = v.remove(i);
            proof {
                assert(v@ == s0.remove(i as int));
                assert(set_remove(s0, x) == s0.remove(i as int));
            }
        },
        None => {
            proof {
                s0.index_of_first_ensures(x);
                assert(!s0.contains(x));
            }
        },
    }
}

/// An owned copy of a sequence of ids.
fn copy_ids(v: &Vec<u64>) -> (r: Vec<u64>)
    ensures
        r@ == v@,
{
    let mut r: Vec<u64> = Vec::new();
    let mut i: usize = 0;
    while i < v.len()
        invariant
            i <= v@.len(),
            r@ == v@.take(i as int),
        decreases v@.len() - i,
    {
        r.push(v[i]);
        proof {
            assert(v@.take(i as int).push(v@[i as int]) =~= v@.take(i as int + 1));
        }
        i = i + 1;
    }
    proof {
        assert(v@.take(v@.len() as int) =~= v@);
    }
    r
}

/// An owned copy of a sequence of bids.
fn copy_bids(v: &Vec<(u64, u128)>) -> (r: Vec<(u64, u128)>)
    ensures
        r@ == v@,
{
    let mut r: Vec<(u64, u128)> = Vec::new();
    let mut i: usize = 0;
    while i < v.len()
        invariant
            i <= v@.len(),
            r@ == v@.take(i as int),
        decreases v@.len() - i,
    {
        r.push(v[i]);
        proof {
            assert(v@.take(i as int).push(v@[i as int]) =~= v@.take(i as int + 1));
        }
        i = i + 1;
    }
    proof {
        assert(v@.take(v@.len() as int) =~= v@);
    }
    r
}

/// Index of the bid placed by `key`, if any.
fn find_bid(v: &Vec<(u64, u128)>, key: u64) -> (r: Option<usize>)
    ensures
        match r {
            Some(i) => i < v@.len() && v@[i as int].0 == key,
            None => forall|j: int| 0 <= j < v@.len() ==> v@[j].0 != key,
        },
{
    let mut i: usize = 0;
    while i < v.len()
        invariant
            i <= v@.len(),
            forall|j: int| 0 <= j < i ==> v@[j].0 != key,
        decreases v@.len() - i,
    {
        if v[i].0 == key {
            return Some(i);
        }
        i = i + 1;
    }
    None
}

/// The whole book held as named records: the store-handle that every
/// operation reads and writes.
pub struct Contract {
    users: Vec<User>,
    fixlist: Fixlist,
    floatlist: Floatlist,
    defaultlist: Defaultlist,
    swaps: Vec<Swap>,
    swap_counter: Swaps,
    price: Price,
    ownership: Option<Ownership>,
    fixlistsize: Fixlistsize,
    floatlistsize: Floatlistsize,
}

impl View for Contract {
    type V = BookV;

    closed spec fn view(&self) -> BookV {
        BookV {
            users: users_map(self.users@),
            fixlist: self.fixlist.0@,
            floatlist: self.floatlist.0@,
            defaultlist: self.defaultlist.0@,
            swaps: swaps_map(self.swaps@),
            counter: self.swap_counter.0,
            price: self.price.0,
            owner: match self.ownership {
                Some(o) => Some(o.owner_addr),
                None => None,
            },
        }
    }
}

impl Contract {
    /// Consistently keyed storage: record keys are pairwise distinct.
    spec fn rep_ok(&self) -> bool {
        &&& users_distinct(self.users@)
        &&& swaps_distinct(self.swaps@)
        &&& forall|i: int|
            0 <= i < self.swaps@.len() ==> bids_distinct(#[trigger] self.swaps@[i].participants@)
        &&& self.fixlistsize.0 == 0
        &&& self.floatlistsize.0 == 0
    }

    /// The book is well formed: its records are consistently keyed and the
    /// structural invariant of the model holds of its view.
    pub closed spec fn wf(&self) -> bool {
        &&& self.rep_ok()
        &&& book_inv(self@)
    }

    /// A well-formed book satisfies the structural invariant of the model;
    /// together with [`crate::laws::lemma_side_lists_exclusive`] this gives,
    /// after every operation, that an account sits in at most one side list.
    pub proof fn lemma_wf_gives_book_inv(&self)
        requires
            self.wf(),
        ensures
            book_inv(self@),
    {
    }

    /// An empty book: no accounts, no swaps, zero counters, not constructed.
    pub fn new() -> (r: Contract)
        ensures
            r.wf(),
            r@ == (BookV {
                users: Map::empty(),
                fixlist: Seq::empty(),
                floatlist: Seq::empty(),
                defaultlist: Seq::empty(),
                swaps: Map::empty(),
                counter: 0,
                price: 0,
                owner: None,
            }),
    {
        let r = Contract {
            users: Vec::new(),
            fixlist: Fixlist(Vec::new()),
            floatlist: Floatlist(Vec::new()),
            defaultlist: Defaultlist(Vec::new()),
            swaps: Vec::new(),
            swap_counter: Swaps(0),
            price: Price(0),
            ownership: None,
            fixlistsize: Fixlistsize(0),
            floatlistsize: Floatlistsize(0),
        };
        proof {
            assert(r@.users =~= Map::<u64, UserV>::empty());
            assert(r@.swaps =~= Map::<u64, SwapV>::empty());
            assert(r@ =~~= (BookV {
                users: Map::empty(),
                fixlist: Seq::empty(),
                floatlist: Seq::empty(),
                defaultlist: Seq::empty(),
                swaps: Map::empty(),
                counter: 0,
                price: 0,
                owner: None,
            }));
            assert forall|a: u64| (#[trigger] r@.user(a)) == UserV::fresh(a) by {}
        }
        r
    }

    /// Index of the record for `address`, if one is stored.
    fn find_user(&self, address: u64) -> (r: Option<usize>)
        ensures
            match r {
                Some(i) => i < self.users@.len() && self.users@[i as int].address == address,
                None => forall|j: int| 0 <= j < self.users@.len() ==> self.users@[j].address != address,
            },
    {
        let mut i: usize = 0;
        while i < self.users.len()
            invariant
                i <= self.users@.len(),
                forall|j: int| 0 <= j < i ==> self.users@[j].address != address,
            decreases self.users@.len() - i,
        {
            if self.users[i].address == address {
                return Some(i);
            }
            i = i + 1;
        }
        None
    }

    /// The account stored at `address`, or a fresh account if none is: an
    /// absent record defaults rather than fails.
    fn read_user(&self, address: u64) -> (r: User)
        requires
            self.rep_ok(),
        ensures
            r@ == self@.user(address),
    {
        match self.find_user(address) {
            Some(i) => {
                proof {
                    lemma_users_map_index(self.users@, i as int);
                }
                let u = &self.users[i];
                User {
                    address: u.address,
                    deposit: u.deposit,
                    position: u.position,
                    exposure: u.exposure,
                    swaps: copy_ids(&u.swaps),
                }
            },
            None => {
                proof {
                    lemma_users_map_dom(self.users@);
                }
                User {
                    address,
                    deposit: 0,
                    position: Position::Flat,
                    exposure: 0,
                    swaps: Vec::new(),
                }
            },
        }
    }

    /// Store `u` under its address, replacing any record already there.
    fn put_user(&mut self, u: User)
        requires
            old(self).rep_ok(),
        ensures
            final(self).rep_ok(),
            final(self)@ == (BookV { users: old(self)@.users.insert(u.address, u@), ..old(self)@ }),
    {
        let ghost s0 = self.users@;
        match self.find_user(u.address) {
            Some(i) => {
                let _ = self.users.remove(i);
                self.users.insert(i, u);
                proof {
                    assert(self.users@ =~= s0.update(i as int, u));
                    lemma_users_map_update(s0, i as int, u);
                }
            },
            None => {
                self.users.push(u);
                proof {
                    lemma_users_map_push(s0, u);
                }
            },
        }
    }

    /// Index of the record for swap `id`, if one is stored.
    fn find_swap(&self, id: u64) -> (r: Option<usize>)
        ensures
            match r {
                Some(i) => i < self.swaps@.len() && self.swaps@[i as int].id == id,
                None => forall|j: int| 0 <= j < self.swaps@.len() ==> self.swaps@[j].id != id,
            },
    {
        let mut i: usize = 0;
        while i < self.swaps.len()
            invariant
                i <= self.swaps@.len(),
                forall|j: int| 0 <= j < i ==> self.swaps@[j].id != id,
            decreases self.swaps@.len() - i,
        {
            if self.swaps[i].id == id {
                return Some(i);
            }
            i = i + 1;
        }
        None
    }

    /// Whether swap `id` is stored.
    fn swap_exists(&self, id: u64) -> (r: bool)
        ensures
            r == self@.swaps.dom().contains(id),
    {
        proof {
            lemma_swaps_map_dom(self.swaps@);
        }
        match self.find_swap(id) {
            Some(_) => true,
            None => false,
        }
    }

    /// The stored swap `id`; a missing record is an invariant breach
    /// surfaced as a typed error, never silently defaulted.
    fn get_swap_rec(&self, id: u64) -> (r: Result<Swap, SwapError>)
        requires
            self.rep_ok(),
        ensures
            match r {
                Ok(s) => self@.swaps.dom().contains(id) && s@ == self@.swaps[id] && bids_distinct(
                    s.participants@,
                ),
                Err(e) => e == SwapError::MissingSwap && !self@.swaps.dom().contains(id),
            },
    {
        match self.find_swap(id) {
            Some(i) => {
                proof {
                    lemma_swaps_map_index(self.swaps@, i as int);
                }
                let s = &self.swaps[i];
                let r = Swap {
                    id: s.id,
                    owner: s.owner,
                    side: s.side,
                    amount: s.amount,
                    participants: copy_bids(&s.participants),
                    counterparty: s.counterparty,
                    maturity: s.maturity,
                    pay_rate: s.pay_rate,
                    receive_rate: s.receive_rate,
                    status: s.status,
                };
                proof {
                    assert(r@ =~~= self@.swaps[id]);
                }
                Ok(r)
            },
            None => {
                proof {
                    lemma_swaps_map_dom(self.swaps@);
                }
                Err(SwapError::MissingSwap)
            },
        }
    }

    /// Store `s` under its id, replacing any record already there.
    fn put_swap(&mut self, s: Swap)
        requires
            old(self).rep_ok(),
            bids_distinct(s.participants@),
        ensures
            final(self).rep_ok(),
            final(self)@ == (BookV { swaps: old(self)@.swaps.insert(s.id, s@), ..old(self)@ }),
    {
        let ghost s0 = self.swaps@;
        match self.find_swap(s.id) {
            Some(i) => {
                let _ = self.swaps.remove(i);
                self.swaps.insert(i, s);
                proof {
                    assert(self.swaps@ =~= s0.update(i as int, s));
                    lemma_swaps_map_update(s0, i as int, s);
                }
            },
            None => {
                self.swaps.push(s);
                proof {
                    lemma_swaps_map_push(s0, s);
                }
            },
        }
    }

    /// Open exposure `amount` on `side` for `address`, recording `swap_id` as
    /// active. Same side grows the account's magnitude, an opposing amount
    /// within the current exposure offsets it (recording nothing), and a
    /// larger opposing amount flips the account to the other side and moves
    /// its side-list membership. A first exposure of a flat account takes the
    /// chosen side; only a fixed first exposure creates side-list membership.
    pub fn open_exposure(&mut self, address: u64, amount: u128, side: Side, swap_id: u64) -> (r:
        Result<(), SwapError>)
        requires
            old(self).wf(),
        ensures
            final(self).wf(),
            r is Ok <==> open_ok(old(self)@, address, amount, side),
            r is Ok ==> final(self)@ == open_apply(old(self)@, address, amount, side, swap_id),
            r is Err ==> final(self)@ == old(self)@ && r == Err::<(), SwapError>(
                SwapError::Overflow,
            ),
    {
        let ghost b0 = self@;
        let mut user = self.read_user(address);
        proof {
            assert(b0.user(address).address == address);
        }
        let pos = side_position(side);
        if user.position == pos {
            if amount > u128::MAX - user.exposure {
                return Err(SwapError::Overflow);
            }
            user.exposure = user.exposure + amount;
            list_insert(&mut user.swaps, swap_id);
            self.put_user(user);
            proof {
                assert(self@ =~~= open_apply(b0, address, amount, side, swap_id));
                lemma_open_preserves_inv(b0, address, amount, side, swap_id);
            }
            Ok(())
        } else if user.position == Position::Flat {
            if amount > u128::MAX - user.exposure {
                return Err(SwapError::Overflow);
            }
            user.position = pos;
            user.exposure = user.exposure + amount;
            list_insert(&mut user.swaps, swap_id);
            self.put_user(user);
            if side == Side::Fixed {
                list_insert(&mut self.fixlist.0, address);
            }
            proof {
                assert(self@ =~~= open_apply(b0, address, amount, side, swap_id));
                lemma_open_preserves_inv(b0, address, amount, side, swap_id);
            }
            Ok(())
        } else if amount <= user.exposure {
            user.exposure = user.exposure - amount;
            self.put_user(user);
            proof {
                assert(self@ =~~= open_apply(b0, address, amount, side, swap_id));
                lemma_open_preserves_inv(b0, address, amount, side, swap_id);
            }
            Ok(())
        } else {
            user.position = pos;
            user.exposure = amount - user.exposure;
            list_insert(&mut user.swaps, swap_id);
            self.put_user(user);
            match side {
                Side::Fixed => {
                    list_insert(&mut self.fixlist.0, address);
                    list_remove(&mut self.floatlist.0, address);
                },
                Side::Floating => {
                    list_insert(&mut self.floatlist.0, address);
                    list_remove(&mut self.fixlist.0, address);
                },
            }
            proof {
                assert(self@ =~~= open_apply(b0, address, amount, side, swap_id));
                lemma_open_preserves_inv(b0, address, amount, side, swap_id);
            }
            Ok(())
        }
    }

    /// Close `amount` of the swap `swap_id` held on `side` for `address`:
    /// the signed opposite of opening. The swap id leaves the account's
    /// active set in every branch; a closing flip never touches the side
    /// lists.
    pub fn close_exposure(&mut self, address: u64, amount: u128, side: Side, swap_id: u64) -> (r:
        Result<(), SwapError>)
        requires
            old(self).wf(),
        ensures
            final(self).wf(),
            r is Ok <==> close_ok(old(self)@, address, amount, side),
            r is Ok ==> final(self)@ == close_apply(old(self)@, address, amount, side, swap_id),
            r is Err ==> final(self)@ == old(self)@ && r == Err::<(), SwapError>(
                SwapError::Overflow,
            ),
    {
        let ghost b0 = self@;
        let mut user = self.read_user(address);
        proof {
            assert(b0.user(address).address == address);
        }
        let pos = side_position(side);
        if user.position != pos {
            if amount > u128::MAX - user.exposure {
                return Err(SwapError::Overflow);
            }
            user.exposure = user.exposure + amount;
            list_remove(&mut user.swaps, swap_id);
            self.put_user(user);
            proof {
                assert(self@ =~~= close_apply(b0, address, amount, side, swap_id));
                lemma_close_preserves_inv(b0, address, amount, side, swap_id);
            }
            Ok(())
        } else if amount <= user.exposure {
            user.exposure = user.exposure - amount;
            list_remove(&mut user.swaps, swap_id);
            self.put_user(user);
            proof {
                assert(self@ =~~= close_apply(b0, address, amount, side, swap_id));
                lemma_close_preserves_inv(b0, address, amount, side, swap_id);
            }
            Ok(())
        } else {
            user.position = side_position(side_opposite(side));
            user.exposure = amount - user.exposure;
            list_remove(&mut user.swaps, swap_id);
            self.put_user(user);
            proof {
                assert(self@ =~~= close_apply(b0, address, amount, side, swap_id));
                lemma_close_preserves_inv(b0, address, amount, side, swap_id);
            }
            Ok(())
        }
    }

    /// Whether every swap of `address` exists in the store.
    fn check_default(&self, address: u64) -> (r: bool)
        requires
            self.rep_ok(),
        ensures
            r == default_ok(self@, address),
    {
        let user = self.read_user(address);
        let mut i: usize = 0;
        while i < user.swaps.len()
            invariant
                self.rep_ok(),
                user@ == self@.user(address),
                i <= user.swaps@.len(),
                forall|j: int| 0 <= j < i ==> self@.swaps.dom().contains(#[trigger] user.swaps@[j]),
            decreases user.swaps@.len() - i,
        {
            if !self.swap_exists(user.swaps[i]) {
                proof {
                    assert(self@.user(address).swaps[i as int] == user.swaps@[i as int]);
                }
                return false;
            }
            i = i + 1;
        }
        true
    }

    /// The unwind itself: mark every swap of the account defaulted, list the
    /// ids, forfeit the collateral, reset the account and end its side-list
    /// membership.
    fn apply_default(&mut self, address: u64)
        requires
            old(self).rep_ok(),
            book_inv(old(self)@),
            default_ok(old(self)@, address),
        ensures
            final(self).rep_ok(),
            final(self)@ == default_apply(old(self)@, address),
    {
        let ghost b0 = self@;
        let user = self.read_user(address);
        let mut i: usize = 0;
        while i < user.swaps.len()
            invariant
                self.rep_ok(),
                book_inv(b0),
                default_ok(b0, address),
                user@ == b0.user(address),
                i <= user.swaps@.len(),
                self@ == defaults_fold(b0, user.swaps@.take(i as int)),
            decreases user.swaps@.len() - i,
        {
            let sid = user.swaps[i];
            proof {
                lemma_defaults_fold_frame(b0, user.swaps@.take(i as int));
                assert(b0.user(address).swaps[i as int] == sid);
                assert(b0.swaps.dom().contains(sid));
                assert(self@.swaps.dom() == b0.swaps.dom());
                assert(self@.swaps.dom().contains(sid));
            }
            let got = self.get_swap_rec(sid);
            let mut s = match got {
                Ok(s) => s,
                Err(_) => {
                    proof {
                        assert(false);
                    }
                    return ;
                },
            };
            let ghost prev = self@;
            proof {
                assert(prev.swaps[sid].id == sid) by {
                    if user.swaps@.take(i as int).contains(sid) {
                        assert(prev.swaps[sid] == (SwapV {
                            status: SwapStatus::Defaulted,
                            ..b0.swaps[sid]
                        }));
                    } else {
                        assert(prev.swaps[sid] == b0.swaps[sid]);
                    }
                    assert(b0.swaps[sid].id == sid);
                }
                assert(s.id == sid);
            }
            s.status = SwapStatus::Defaulted;
            proof {
                assert(s@ =~~= (SwapV { status: SwapStatus::Defaulted, ..prev.swaps[sid] }));
            }
            self.put_swap(s);
            list_insert(&mut self.defaultlist.0, sid);
            proof {
                assert(self@ =~~= mark_defaulted(prev, sid));
                assert(user.swaps@.take(i as int + 1).drop_last() =~= user.swaps@.take(i as int));
                assert(user.swaps@.take(i as int + 1).last() == sid);
                assert(self@ == defaults_fold(b0, user.swaps@.take(i as int + 1)));
            }
            i = i + 1;
        }
        proof {
            assert(user.swaps@.take(user.swaps@.len() as int) =~= user.swaps@);
        }
        let fresh_user = User {
            address,
            deposit: 0,
            position: Position::Flat,
            exposure: 0,
            swaps: Vec::new(),
        };
        proof {
            assert(fresh_user@ =~~= UserV::fresh(address));
        }
        self.put_user(fresh_user);
        list_remove(&mut self.fixlist.0, address);
        list_remove(&mut self.floatlist.0, address);
        proof {
            assert(self@ =~~= default_apply(b0, address));
        }
    }

    /// Force the default unwind of `address`: a liquidation, not a
    /// close-out. Succeeds exactly when every swap of the account exists;
    /// on a missing record nothing changes.
    pub fn force_default(&mut self, address: u64) -> (r: Result<(), SwapError>)
        requires
            old(self).wf(),
        ensures
            final(self).wf(),
            r is Ok <==> default_ok(old(self)@, address),
            r is Ok ==> final(self)@ == default_apply(old(self)@, address),
            r is Err ==> final(self)@ == old(self)@ && r == Err::<(), SwapError>(
                SwapError::MissingSwap,
            ),
    {
        if !self.check_default(address) {
            return Err(SwapError::MissingSwap);
        }
        let ghost b0 = self@;
        self.apply_default(address);
        proof {
            lemma_default_apply(b0, address);
        }
        Ok(())
    }

    /// Whether the whole paying side can be charged: each charge fits the
    /// balance type and each defaulting account has all its swaps stored.
    fn check_charges(&self, addrs: &Vec<u64>, diff: u128) -> (r: Result<(), SwapError>)
        requires
            self.rep_ok(),
            diff > 0,
        ensures
            match r {
                Ok(()) => charges_ok(self@, addrs@, diff),
                Err(e) => {
                    &&& !charges_ok(self@, addrs@, diff)
                    &&& (e == SwapError::Overflow ==> charge_overflow_somewhere(
                        self@,
                        addrs@,
                        diff,
                    ))
                    &&& (e == SwapError::MissingSwap ==> default_missing_somewhere(
                        self@,
                        addrs@,
                        diff,
                    ))
                    &&& (e == SwapError::Overflow || e == SwapError::MissingSwap)
                },
            },
    {
        let limit = u128::MAX / diff;
        let mut i: usize = 0;
        while i < addrs.len()
            invariant
                self.rep_ok(),
                diff > 0,
                limit == u128::MAX / diff,
                i <= addrs@.len(),
                forall|j: int| 0 <= j < i ==> charge_ok(self@, #[trigger] addrs@[j], diff),
            decreases addrs@.len() - i,
        {
            let a = addrs[i];
            let u = self.read_user(a);
            proof {
                lemma_mul_fits(u.exposure, diff);
            }
            if u.exposure > limit {
                proof {
                    assert(charge_of(self@.user(a), diff) > u128::MAX);
                    assert(charge_overflow_somewhere(self@, addrs@, diff)) by {
                        assert(charge_of(self@.user(addrs@[i as int]), diff) > u128::MAX);
                    }
                    assert(!charge_ok(self@, addrs@[i as int], diff));
                }
                return Err(SwapError::Overflow);
            }
            let charge = u.exposure * diff;
            if !(u.deposit > charge) {
                if !self.check_default(a) {
                    proof {
                        assert(!pays(self@.user(a), diff));
                        assert(default_missing_somewhere(self@, addrs@, diff)) by {
                            assert(charge_of(self@.user(addrs@[i as int]), diff) <= u128::MAX
                                && !pays(self@.user(addrs@[i as int]), diff) && !default_ok(
                                self@,
                                addrs@[i as int],
                            ));
                        }
                        assert(!charge_ok(self@, addrs@[i as int], diff));
                    }
                    return Err(SwapError::MissingSwap);
                }
            }
            proof {
                assert(charge_ok(self@, addrs@[i as int], diff));
            }
            i = i + 1;
        }
        Ok(())
    }

    /// Whether the whole receiving side can be credited within the balance
    /// type.
    fn check_credits(&self, addrs: &Vec<u64>, diff: u128) -> (r: bool)
        requires
            self.rep_ok(),
            diff > 0,
        ensures
            r == credits_ok(self@, addrs@, diff),
    {
        let limit = u128::MAX / diff;
        let mut i: usize = 0;
        while i < addrs.len()
            invariant
                self.rep_ok(),
                diff > 0,
                limit == u128::MAX / diff,
                i <= addrs@.len(),
                forall|j: int| 0 <= j < i ==> credit_ok(self@, #[trigger] addrs@[j], diff),
            decreases addrs@.len() - i,
        {
            let a = addrs[i];
            let u = self.read_user(a);
            proof {
                lemma_mul_fits(u.exposure, diff);
            }
            if u.exposure > limit {
                proof {
                    assert(!credit_ok(self@, addrs@[i as int], diff));
                }
                return false;
            }
            let charge = u.exposure * diff;
            if u.deposit > u128::MAX - charge {
                proof {
                    assert(!credit_ok(self@, addrs@[i as int], diff));
                }
                return false;
            }
            proof {
                assert(credit_ok(self@, addrs@[i as int], diff));
            }
            i = i + 1;
        }
        true
    }

    /// Charge the whole paying side, defaulting the accounts whose
    /// collateral is exhausted.
    fn apply_charges(&mut self, addrs: &Vec<u64>, diff: u128)
        requires
            old(self).rep_ok(),
            book_inv(old(self)@),
            addrs@.no_duplicates(),
            charges_ok(old(self)@, addrs@, diff),
            diff > 0,
        ensures
            final(self).rep_ok(),
            final(self)@ == charge_fold(old(self)@, addrs@, diff),
    {
        let ghost b0 = self@;
        let mut i: usize = 0;
        while i < addrs.len()
            invariant
                self.rep_ok(),
                diff > 0,
                addrs@.no_duplicates(),
                book_inv(b0),
                charges_ok(b0, addrs@, diff),
                i <= addrs@.len(),
                self@ == charge_fold(b0, addrs@.take(i as int), diff),
            decreases addrs@.len() - i,
        {
            let ghost pre = addrs@.take(i as int);
            proof {
                assert(pre.no_duplicates()) by {
                    assert forall|x: int, y: int|
                        0 <= x < pre.len() && 0 <= y < pre.len() && x != y implies pre[x]
                        != pre[y] by {
                        assert(pre[x] == addrs@[x]);
                        assert(pre[y] == addrs@[y]);
                    }
                }
                assert(charges_ok(b0, pre, diff)) by {
                    assert forall|j: int| 0 <= j < pre.len() implies charge_ok(
                        b0,
                        #[trigger] pre[j],
                        diff,
                    ) by {
                        assert(pre[j] == addrs@[j]);
                    }
                }
                lemma_charge_fold_frame(b0, pre, diff);
                assert(!pre.contains(addrs@[i as int])) by {
                    if pre.contains(addrs@[i as int]) {
                        let j = choose|j: int| 0 <= j < pre.len() && pre[j] == addrs@[i as int];
                        assert(addrs@[j] == addrs@[i as int]);
                    }
                }
                assert(self@.user(addrs@[i as int]) == b0.user(addrs@[i as int]));
                assert(charge_ok(b0, addrs@[i as int], diff));
                assert(book_inv(self@));
            }
            let a = addrs[i];
            let mut u = self.read_user(a);
            let charge = u.exposure * diff;
            let ghost prev = self@;
            proof {
                assert(u.address == a) by {
                    assert(prev.user(a).address == a);
                }
            }
            if u.deposit > charge {
                u.deposit = u.deposit - charge;
                self.put_user(u);
                proof {
                    assert(self@ =~~= charge_one(prev, a, diff));
                }
            } else {
                proof {
                    assert(!pays(prev.user(a), diff));
                    assert(default_ok(b0, a));
                    assert(default_ok(prev, a)) by {
                        assert(prev.user(a) == b0.user(a));
                        assert(prev.swaps.dom() == b0.swaps.dom());
                        assert forall|j: int|
                            0 <= j < prev.user(a).swaps.len() implies prev.swaps.dom().contains(
                            #[trigger] prev.user(a).swaps[j],
                        ) by {
                            assert(b0.swaps.dom().contains(b0.user(a).swaps[j]));
                        }
                    }
                }
                self.apply_default(a);
                proof {
                    assert(self@ =~~= charge_one(prev, a, diff));
                }
            }
            proof {
                assert(addrs@.take(i as int + 1).drop_last() =~= addrs@.take(i as int));
                assert(addrs@.take(i as int + 1).last() == addrs@[i as int]);
                assert(self@ == charge_fold(b0, addrs@.take(i as int + 1), diff));
            }
            i = i + 1;
        }
        proof {
            assert(addrs@.take(addrs@.len() as int) =~= addrs@);
        }
    }

    /// Credit the whole receiving side.
    fn apply_credits(&mut self, addrs: &Vec<u64>, diff: u128)
        requires
            old(self).rep_ok(),
            book_inv(old(self)@),
            addrs@.no_duplicates(),
            credits_ok(old(self)@, addrs@, diff),
            diff > 0,
        ensures
            final(self).rep_ok(),
            final(self)@ == credit_fold(old(self)@, addrs@, diff),
    {
        let ghost b0 = self@;
        let mut i: usize = 0;
        while i < addrs.len()
            invariant
                self.rep_ok(),
                diff > 0,
                addrs@.no_duplicates(),
                book_inv(b0),
                credits_ok(b0, addrs@, diff),
                i <= addrs@.len(),
                self@ == credit_fold(b0, addrs@.take(i as int), diff),
            decreases addrs@.len() - i,
        {
            let ghost pre = addrs@.take(i as int);
            proof {
                assert(pre.no_duplicates()) by {
                    assert forall|x: int, y: int|
                        0 <= x < pre.len() && 0 <= y < pre.len() && x != y implies pre[x]
                        != pre[y] by {
                        assert(pre[x] == addrs@[x]);
                        assert(pre[y] == addrs@[y]);
                    }
                }
                assert(credits_ok(b0, pre, diff)) by {
                    assert forall|j: int| 0 <= j < pre.len() implies credit_ok(
                        b0,
                        #[trigger] pre[j],
                        diff,
                    ) by {
                        assert(pre[j] == addrs@[j]);
                    }
                }
                lemma_credit_fold_frame(b0, pre, diff);
                assert(!pre.contains(addrs@[i as int])) by {
                    if pre.contains(addrs@[i as int]) {
                        let j = choose|j: int| 0 <= j < pre.len() && pre[j] == addrs@[i as int];
                        assert(addrs@[j] == addrs@[i as int]);
                    }
                }
                assert(self@.user(addrs@[i as int]) == b0.user(addrs@[i as int]));
                assert(credit_ok(b0, addrs@[i as int], diff));
            }
            let a = addrs[i];
            let mut u = self.read_user(a);
            let charge = u.exposure * diff;
            let ghost prev = self@;
            proof {
                assert(u.address == a) by {
                    assert(book_inv(b0));
                    assert(b0.user(a).address == a);
                }
            }
            u.deposit = u.deposit + charge;
            self.put_user(u);
            proof {
                assert(self@ =~~= credit_one(prev, a, diff));
                assert(addrs@.take(i as int + 1).drop_last() =~= addrs@.take(i as int));
                assert(addrs@.take(i as int + 1).last() == addrs@[i as int]);
                assert(self@ == credit_fold(b0, addrs@.take(i as int + 1), diff));
            }
            i = i + 1;
        }
        proof {
            assert(addrs@.take(addrs@.len() as int) =~= addrs@);
        }
    }

    /// Mark the book to market at `new_price`. Every account on the paying
    /// side is charged its exposure times the price move or, if its
    /// collateral cannot cover the charge, is liquidated; every account on
    /// the receiving side is credited the same; the reference price becomes
    /// `new_price`. An unchanged price is a no-op. On any failure the book
    /// is left exactly as it was: the pass is atomic, checked in full before
    /// the first write.
    pub fn mark_to_market(&mut self, new_price: u128) -> (r: Result<(), SwapError>)
        requires
            old(self).wf(),
        ensures
            final(self).wf(),
            r is Ok <==> mtm_ok(old(self)@, new_price),
            r is Ok ==> final(self)@ == mtm_apply(old(self)@, new_price),
            r is Err ==> final(self)@ == old(self)@ && (r == Err::<(), SwapError>(
                SwapError::Overflow,
            ) || r == Err::<(), SwapError>(SwapError::MissingSwap)),
            r == Err::<(), SwapError>(SwapError::Overflow) ==> charge_overflow_somewhere(
                old(self)@,
                pay_side(old(self)@, new_price),
                price_diff(old(self)@, new_price),
            ) || !credits_ok(
                old(self)@,
                recv_side(old(self)@, new_price),
                price_diff(old(self)@, new_price),
            ),
            r == Err::<(), SwapError>(SwapError::MissingSwap) ==> default_missing_somewhere(
                old(self)@,
                pay_side(old(self)@, new_price),
                price_diff(old(self)@, new_price),
            ),
    {
        let ghost b0 = self@;
        if new_price == self.price.0 {
            return Ok(());
        }
        let diff = if new_price < self.price.0 {
            self.price.0 - new_price
        } else {
            new_price - self.price.0
        };
        let pay = if new_price < self.price.0 {
            copy_ids(&self.floatlist.0)
        } else {
            copy_ids(&self.fixlist.0)
        };
        let recv = if new_price < self.price.0 {
            copy_ids(&self.fixlist.0)
        } else {
            copy_ids(&self.floatlist.0)
        };
        proof {
            assert(pay@ == pay_side(b0, new_price));
            assert(recv@ == recv_side(b0, new_price));
            assert(diff == price_diff(b0, new_price));
        }
        match self.check_charges(&pay, diff) {
            Err(e) => {
                return Err(e);
            },
            Ok(()) => {},
        }
        if !self.check_credits(&recv, diff) {
            return Err(SwapError::Overflow);
        }
        self.apply_charges(&pay, diff);
        let ghost b1 = self@;
        proof {
            lemma_charge_fold_frame(b0, pay@, diff);
            assert forall|i: int| 0 <= i < recv@.len() implies credit_ok(
                b1,
                #[trigger] recv@[i],
                diff,
            ) by {
                assert(recv@.contains(recv@[i]));
                assert(!pay@.contains(recv@[i]));
                assert(b1.user(recv@[i]) == b0.user(recv@[i]));
                assert(credit_ok(b0, recv@[i], diff));
            }
        }
        self.apply_credits(&recv, diff);
        let ghost b2 = self@;
        self.price = Price(new_price);
        proof {
            lemma_credit_fold_frame(b1, recv@, diff);
            assert(self@ =~~= mtm_apply(b0, new_price));
            lemma_book_inv_scalars(b2, new_price, b2.owner);
            assert(self@ =~~= (BookV { price: new_price, owner: b2.owner, ..b2 }));
        }
        Ok(())
    }

    /// Record the privileged owner and zero the reference price: the
    /// construction entry point of the marketplace.
    pub fn construct(&mut self, owner_addr: u64)
        requires
            old(self).wf(),
        ensures
            final(self).wf(),
            final(self)@ == (BookV { price: 0, owner: Some(owner_addr), ..old(self)@ }),
    {
        let ghost b0 = self@;
        self.ownership = Some(Ownership { owner_addr });
        self.price = Price(0);
        proof {
            assert(self@ =~~= (BookV { price: 0, owner: Some(owner_addr), ..b0 }));
            lemma_book_inv_scalars(b0, 0, Some(owner_addr));
        }
    }

    /// The ownership record; reading it before construction is a fault.
    pub fn get_ownership(&self) -> (r: Result<Ownership, SwapError>)
        ensures
            match r {
                Ok(o) => self@.owner == Some(o.owner_addr),
                Err(e) => e == SwapError::MissingOwnership && self@.owner is None,
            },
    {
        match self.ownership {
            Some(o) => Ok(o),
            None => Err(SwapError::MissingOwnership),
        }
    }

    /// The account stored at `address`, or a fresh account if none is.
    pub fn get_user(&self, address: u64) -> (r: User)
        requires
            self.wf(),
        ensures
            r@ == self@.user(address),
    {
        self.read_user(address)
    }

    /// The current reference price.
    pub fn get_price(&self) -> (r: u128)
        ensures
            r == self@.price,
    {
        self.price.0
    }

    /// The accounts currently net fixed.
    pub fn get_fixlist(&self) -> (r: Vec<u64>)
        ensures
            r@ == self@.fixlist,
    {
        copy_ids(&self.fixlist.0)
    }

    /// The accounts currently net floating.
    pub fn get_floatlist(&self) -> (r: Vec<u64>)
        ensures
            r@ == self@.floatlist,
    {
        copy_ids(&self.floatlist.0)
    }

    /// The ids of swaps whose owner has defaulted.
    pub fn get_defaultlist(&self) -> (r: Vec<u64>)
        ensures
            r@ == self@.defaultlist,
    {
        copy_ids(&self.defaultlist.0)
    }

    /// The swap counter.
    pub fn get_swaps(&self) -> (r: u64)
        ensures
            r == self@.counter,
    {
        self.swap_counter.0
    }

    /// The number of swaps ever created.
    pub fn get_swap_size(&self) -> (r: u64)
        ensures
            r == self@.counter,
    {
        self.swap_counter.0
    }

    /// The stored fixed-side size record. No operation of the engine writes
    /// it, so it reads as its default.
    pub fn get_fixlist_size(&self) -> (r: u64)
        requires
            self.wf(),
        ensures
            r == 0,
    {
        self.fixlistsize.0
    }

    /// The stored floating-side size record. No operation of the engine
    /// writes it, so it reads as its default.
    pub fn get_floatlist_size(&self) -> (r: u64)
        requires
            self.wf(),
        ensures
            r == 0,
    {
        self.floatlistsize.0
    }

    /// Top up the collateral of `address`.
    pub fn deposit(&mut self, address: u64, amount: u128) -> (r: Result<(), SwapError>)
        requires
            old(self).wf(),
        ensures
            final(self).wf(),
            r is Ok <==> old(self)@.user(address).deposit + amount <= u128::MAX,
            r is Ok ==> final(self)@ == (BookV {
                users: old(self)@.users.insert(
                    address,
                    (UserV {
                        deposit: (old(self)@.user(address).deposit + amount) as u128,
                        ..old(self)@.user(address)
                    }),
                ),
                ..old(self)@
            }),
            r is Err ==> final(self)@ == old(self)@ && r == Err::<(), SwapError>(
                SwapError::Overflow,
            ),
    {
        let ghost b0 = self@;
        let mut user = self.read_user(address);
        if amount > u128::MAX - user.deposit {
            return Err(SwapError::Overflow);
        }
        user.deposit = user.deposit + amount;
        proof {
            assert(b0.user(address).address == address);
            lemma_user_update_preserves_inv(b0, user@);
        }
        self.put_user(user);
        proof {
            assert(self@ =~~= (BookV {
                users: b0.users.insert(
                    address,
                    (UserV {
                        deposit: (b0.user(address).deposit + amount) as u128,
                        ..b0.user(address)
                    }),
                ),
                ..b0
            }));
        }
        Ok(())
    }

    /// Create a swap in ordering status: the next id from the counter, the
    /// creator as initial counter-party, no bids yet.
    pub fn create_swap(
        &mut self,
        side: Side,
        amount: u128,
        maturity: u128,
        rate: u128,
        owner: u64,
    ) -> (r: Result<(), SwapError>)
        requires
            old(self).wf(),
        ensures
            final(self).wf(),
            r is Ok <==> old(self)@.counter < u64::MAX,
            r is Ok ==> final(self)@ == (BookV {
                swaps: old(self)@.swaps.insert(
                    (old(self)@.counter + 1) as u64,
                    (SwapV {
                        id: (old(self)@.counter + 1) as u64,
                        owner,
                        side,
                        amount,
                        participants: Map::empty(),
                        counterparty: owner,
                        maturity,
                        pay_rate: rate,
                        receive_rate: 0,
                        status: SwapStatus::Ordering,
                    }),
                ),
                counter: (old(self)@.counter + 1) as u64,
                ..old(self)@
            }),
            r is Err ==> final(self)@ == old(self)@ && r == Err::<(), SwapError>(
                SwapError::Overflow,
            ),
    {
        let ghost b0 = self@;
        if self.swap_counter.0 == u64::MAX {
            return Err(SwapError::Overflow);
        }
        let id = self.swap_counter.0 + 1;
        let s = Swap {
            id,
            owner,
            side,
            amount,
            participants: Vec::new(),
            counterparty: owner,
            maturity,
            pay_rate: rate,
            receive_rate: 0,
            status: SwapStatus::Ordering,
        };
        proof {
            assert(bids_distinct(s.participants@));
            assert(s@.participants =~= Map::<u64, u128>::empty());
        }
        self.put_swap(s);
        self.swap_counter = Swaps(id);
        proof {
            assert(self@ =~~= (BookV {
                swaps: b0.swaps.insert(
                    (b0.counter + 1) as u64,
                    (SwapV {
                        id: (b0.counter + 1) as u64,
                        owner,
                        side,
                        amount,
                        participants: Map::empty(),
                        counterparty: owner,
                        maturity,
                        pay_rate: rate,
                        receive_rate: 0,
                        status: SwapStatus::Ordering,
                    }),
                ),
                counter: (b0.counter + 1) as u64,
                ..b0
            }));
            assert forall|a: u64| (#[trigger] self@.user(a)) == b0.user(a) by {}
            assert forall|k: u64| #[trigger] self@.swaps.dom().contains(k) implies self@.swaps[k].id
                == k && 1 <= k <= self@.counter by {
                if k != id {
                    assert(b0.swaps.dom().contains(k));
                }
            }
            assert(book_inv(self@));
        }
        Ok(())
    }

    /// Place a bid on an ordering swap. Fails on a missing swap, a swap past
    /// ordering, or a second bid from the same account — each checked before
    /// any write.
    pub fn join_swap(&mut self, swap_num: u64, address: u64, rate: u128) -> (r: Result<
        (),
        SwapError,
    >)
        requires
            old(self).wf(),
        ensures
            final(self).wf(),
            r is Err ==> final(self)@ == old(self)@,
            r is Ok <==> (old(self)@.swaps.dom().contains(swap_num)
                && old(self)@.swaps[swap_num].status == SwapStatus::Ordering && !old(
            self,
            )@.swaps[swap_num].participants.dom().contains(address)),
            match r {
                Ok(()) => {
                    &&& old(self)@.swaps.dom().contains(swap_num)
                    &&& old(self)@.swaps[swap_num].status == SwapStatus::Ordering
                    &&& !old(self)@.swaps[swap_num].participants.dom().contains(address)
                    &&& final(self)@ == (BookV {
                        swaps: old(self)@.swaps.insert(
                            swap_num,
                            (SwapV {
                                participants: old(self)@.swaps[swap_num].participants.insert(
                                    address,
                                    rate,
                                ),
                                ..old(self)@.swaps[swap_num]
                            }),
                        ),
                        ..old(self)@
                    })
                },
                Err(e) => {
                    &&& (e == SwapError::MissingSwap <==> !old(self)@.swaps.dom().contains(
                        swap_num,
                    ))
                    &&& (e == SwapError::AlreadyStarted <==> old(self)@.swaps.dom().contains(
                        swap_num,
                    ) && old(self)@.swaps[swap_num].status != SwapStatus::Ordering)
                    &&& (e == SwapError::AlreadyJoined <==> old(self)@.swaps.dom().contains(
                        swap_num,
                    ) && old(self)@.swaps[swap_num].status == SwapStatus::Ordering && old(
                        self,
                    )@.swaps[swap_num].participants.dom().contains(address))
                },
            },
    {
        let ghost b0 = self@;
        let mut s = match self.get_swap_rec(swap_num) {
            Ok(s) => s,
            Err(e) => {
                return Err(e);
            },
        };
        proof {
            lemma_bids_map_dom(s.participants@);
        }
        if !(s.status == SwapStatus::Ordering) {
            return Err(SwapError::AlreadyStarted);
        }
        match find_bid(&s.participants, address) {
            Some(i) => {
                proof {
                    assert(s.participants@[i as int].0 == address);
                }
                return Err(SwapError::AlreadyJoined);
            },
            None => {},
        }
        let ghost bids0 = s.participants@;
        s.participants.push((address, rate));
        proof {
            lemma_bids_map_push(bids0, (address, rate));
            assert(bids_distinct(s.participants@)) by {
                assert forall|x: int, y: int|
                    0 <= x < s.participants@.len() && 0 <= y < s.participants@.len() && x
                    != y implies s.participants@[x].0 != s.participants@[y].0 by {
                    assert(s.participants@ == bids0.push((address, rate)));
                }
            }
            assert(s.id == swap_num) by {
                assert(b0.swaps[swap_num].id == swap_num);
            }
            assert(s@ =~~= (SwapV {
                participants: b0.swaps[swap_num].participants.insert(address, rate),
                ..b0.swaps[swap_num]
            }));
        }
        let ghost s2 = s@;
        self.put_swap(s);
        proof {
            lemma_swap_update_preserves_inv(b0, s2);
            assert(self@ =~~= (BookV {
                swaps: b0.swaps.insert(
                    swap_num,
                    (SwapV {
                        participants: b0.swaps[swap_num].participants.insert(address, rate),
                        ..b0.swaps[swap_num]
                    }),
                ),
                ..b0
            }));
            assert forall|a: u64| (#[trigger] self@.user(a)) == b0.user(a) by {}
        }
        Ok(())
    }

    /// The public projection of a stored swap: id, side, status, maturity,
    /// pay rate and receive rate.
    pub fn get_swap_info(&self, swap_num: u64) -> (r: Result<
        (u64, Side, SwapStatus, u128, u128, u128),
        SwapError,
    >)
        requires
            self.wf(),
        ensures
            match r {
                Ok(info) => self@.swaps.dom().contains(swap_num) && info == (
                    self@.swaps[swap_num].id,
                    self@.swaps[swap_num].side,
                    self@.swaps[swap_num].status,
                    self@.swaps[swap_num].maturity,
                    self@.swaps[swap_num].pay_rate,
                    self@.swaps[swap_num].receive_rate,
                ),
                Err(e) => e == SwapError::MissingSwap && !self@.swaps.dom().contains(swap_num),
            },
    {
        match self.get_swap_rec(swap_num) {
            Ok(s) => Ok((s.id, s.side, s.status, s.maturity, s.pay_rate, s.receive_rate)),
            Err(e) => Err(e),
        }
    }

    /// Choose the counter-party of a swap: only its owner may decide, and
    /// the chosen account must have bid. The bid's rate becomes the receive
    /// rate, the bids are cleared, the swap completes, and the owner's
    /// exposure opens on the swap's side.
    pub fn swap_decision(&mut self, swap_num: u64, opponent: u64, swap_owner: u64) -> (r: Result<
        (),
        SwapError,
    >)
        requires
            old(self).wf(),
        ensures
            final(self).wf(),
            r is Err ==> final(self)@ == old(self)@,
            r is Ok <==> (old(self)@.swaps.dom().contains(swap_num)
                && old(self)@.swaps[swap_num].owner == swap_owner && old(
            self,
            )@.swaps[swap_num].participants.dom().contains(opponent) && open_ok(
                old(self)@,
                swap_owner,
                old(self)@.swaps[swap_num].amount,
                old(self)@.swaps[swap_num].side,
            )),
            match r {
                Ok(()) => {
                    &&& old(self)@.swaps.dom().contains(swap_num)
                    &&& old(self)@.swaps[swap_num].owner == swap_owner
                    &&& old(self)@.swaps[swap_num].participants.dom().contains(opponent)
                    &&& open_ok(
                        old(self)@,
                        swap_owner,
                        old(self)@.swaps[swap_num].amount,
                        old(self)@.swaps[swap_num].side,
                    )
                    &&& final(self)@ == (BookV {
                        swaps: open_apply(
                            old(self)@,
                            swap_owner,
                            old(self)@.swaps[swap_num].amount,
                            old(self)@.swaps[swap_num].side,
                            swap_num,
                        ).swaps.insert(
                            swap_num,
                            (SwapV {
                                counterparty: opponent,
                                participants: Map::empty(),
                                status: SwapStatus::Complete,
                                receive_rate: old(self)@.swaps[swap_num].participants[opponent],
                                ..old(self)@.swaps[swap_num]
                            }),
                        ),
                        ..open_apply(
                            old(self)@,
                            swap_owner,
                            old(self)@.swaps[swap_num].amount,
                            old(self)@.swaps[swap_num].side,
                            swap_num,
                        )
                    })
                },
                Err(e) => {
                    &&& (e == SwapError::MissingSwap <==> !old(self)@.swaps.dom().contains(
                        swap_num,
                    ))
                    &&& (e == SwapError::NotOwner <==> old(self)@.swaps.dom().contains(swap_num)
                        && old(self)@.swaps[swap_num].owner != swap_owner)
                    &&& (e == SwapError::NoSuchParticipant <==> old(self)@.swaps.dom().contains(
                        swap_num,
                    ) && old(self)@.swaps[swap_num].owner == swap_owner && !old(
                        self,
                    )@.swaps[swap_num].participants.dom().contains(opponent))
                    &&& (e == SwapError::Overflow <==> old(self)@.swaps.dom().contains(swap_num)
                        && old(self)@.swaps[swap_num].owner == swap_owner && old(
                        self,
                    )@.swaps[swap_num].participants.dom().contains(opponent) && !open_ok(
                        old(self)@,
                        swap_owner,
                        old(self)@.swaps[swap_num].amount,
                        old(self)@.swaps[swap_num].side,
                    ))
                },
            },
    {
        let ghost b0 = self@;
        let mut s = match self.get_swap_rec(swap_num) {
            Ok(s) => s,
            Err(e) => {
                return Err(e);
            },
        };
        if s.owner != swap_owner {
            return Err(SwapError::NotOwner);
        }
        proof {
            lemma_bids_map_dom(s.participants@);
        }
        let rate = match find_bid(&s.participants, opponent) {
            Some(i) => {
                proof {
                    lemma_bids_map_index(s.participants@, i as int);
                }
                s.participants[i].1
            },
            None => {
                return Err(SwapError::NoSuchParticipant);
            },
        };
        match self.open_exposure(swap_owner, s.amount, s.side, swap_num) {
            Ok(()) => {},
            Err(_) => {
                return Err(SwapError::Overflow);
            },
        }
        s.counterparty = opponent;
        s.participants = Vec::new();
        s.status = SwapStatus::Complete;
        s.receive_rate = rate;
        proof {
            assert(s.id == swap_num) by {
                assert(b0.swaps[swap_num].id == swap_num);
            }
            assert(bids_distinct(s.participants@));
            assert(bids_map(s.participants@) =~= Map::<u64, u128>::empty());
            assert(s@ =~~= (SwapV {
                counterparty: opponent,
                participants: Map::empty(),
                status: SwapStatus::Complete,
                receive_rate: b0.swaps[swap_num].participants[opponent],
                ..b0.swaps[swap_num]
            }));
        }
        let ghost b2 = self@;
        let ghost s2 = s@;
        self.put_swap(s);
        proof {
            assert(b2.swaps == b0.swaps);
            lemma_swap_update_preserves_inv(b2, s2);
        }
        Ok(())
    }

    /// Settle a matured swap: closes the owner's exposure on the swap's
    /// side. The stored record itself is read, compared, and left as it is.
    pub fn complete(&mut self, swap_num: u64, now: u128) -> (r: Result<(), SwapError>)
        requires
            old(self).wf(),
        ensures
            final(self).wf(),
            r is Err ==> final(self)@ == old(self)@,
            r is Ok <==> (old(self)@.swaps.dom().contains(swap_num) && now >= old(
            self,
            )@.swaps[swap_num].maturity && close_ok(
                old(self)@,
                old(self)@.swaps[swap_num].owner,
                old(self)@.swaps[swap_num].amount,
                old(self)@.swaps[swap_num].side,
            )),
            match r {
                Ok(()) => {
                    &&& old(self)@.swaps.dom().contains(swap_num)
                    &&& now >= old(self)@.swaps[swap_num].maturity
                    &&& close_ok(
                        old(self)@,
                        old(self)@.swaps[swap_num].owner,
                        old(self)@.swaps[swap_num].amount,
                        old(self)@.swaps[swap_num].side,
                    )
                    &&& final(self)@ == close_apply(
                        old(self)@,
                        old(self)@.swaps[swap_num].owner,
                        old(self)@.swaps[swap_num].amount,
                        old(self)@.swaps[swap_num].side,
                        swap_num,
                    )
                },
                Err(e) => {
                    &&& (e == SwapError::MissingSwap <==> !old(self)@.swaps.dom().contains(
                        swap_num,
                    ))
                    &&& (e == SwapError::MaturityNotReached <==> old(self)@.swaps.dom().contains(
                        swap_num,
                    ) && now < old(self)@.swaps[swap_num].maturity)
                    &&& (e == SwapError::Overflow <==> old(self)@.swaps.dom().contains(swap_num)
                        && now >= old(self)@.swaps[swap_num].maturity && !close_ok(
                        old(self)@,
                        old(self)@.swaps[swap_num].owner,
                        old(self)@.swaps[swap_num].amount,
                        old(self)@.swaps[swap_num].side,
                    ))
                },
            },
    {
        let s = match self.get_swap_rec(swap_num) {
            Ok(s) => s,
            Err(e) => {
                return Err(e);
            },
        };
        if now < s.maturity {
            return Err(SwapError::MaturityNotReached);
        }
        match self.close_exposure(s.owner, s.amount, s.side, swap_num) {
            Ok(()) => Ok(()),
            Err(_) => Err(SwapError::Overflow),
        }
    }
}

} // verus!
