//! Per-participant bookkeeping: free and locked balances of the two assets
//! and the bounded set of the participant's own open order ids.

use vstd::prelude::*;
use crate::types::{ErrorCode, MAX_OPEN_ORDERS_PER_USER};

verus! {

/// One participant's ledger entry. `owner` is the opaque handle that orders
/// carry in `owner_account`; balances are in indivisible token units.
pub struct OpenOrders {
    pub owner: u64,
    pub base_token_free: u64,
    pub quote_token_free: u64,
    pub base_token_locked: u64,
    pub quote_token_locked: u64,
    pub order_ids: Vec<u64>,
    pub is_initialized: Vec<bool>,
}

impl OpenOrders {
    pub open spec fn slots(&self) -> int {
        self.order_ids@.len() as int
    }

    pub open spec fn active(&self, i: int) -> bool {
        self.is_initialized@[i]
    }

    pub open spec fn id_at(&self, i: int) -> u64 {
        self.order_ids@[i]
    }

    /// Does this entry list `id` among its open orders?
    pub open spec fn holds_id(&self, id: u64) -> bool {
        exists|i: int| 0 <= i < self.slots() && self.active(i) && #[trigger] self.id_at(i) == id
    }

    /// Fixed slot count and no duplicate among the active order ids.
    pub open spec fn wf(&self) -> bool {
        &&& self.order_ids@.len() == MAX_OPEN_ORDERS_PER_USER
        &&& self.is_initialized@.len() == MAX_OPEN_ORDERS_PER_USER
        &&& forall|i: int, j: int| 0 <= i < j < self.slots() && self.active(i) && self.active(j)
                ==> #[trigger] self.id_at(i) != #[trigger] self.id_at(j)
    }

    /// A fresh entry: zero balances, no open orders.
    pub fn new(owner: u64) -> (r: OpenOrders)
        ensures
            r.wf(),
            r.owner == owner,
            r.base_token_free == 0,
            r.quote_token_free == 0,
            r.base_token_locked == 0,
            r.quote_token_locked == 0,
            forall|i: int| 0 <= i < r.slots() ==> !r.active(i),
    {
        let mut order_ids: Vec<u64> = Vec::new();
        let mut is_initialized: Vec<bool> = Vec::new();
        let mut i: usize = 0;
        while i < MAX_OPEN_ORDERS_PER_USER
            invariant
                i <= MAX_OPEN_ORDERS_PER_USER,
                order_ids@.len() == i,
                is_initialized@.len() == i,
                forall|j: int| 0 <= j < i ==> !(#[trigger] is_initialized@[j]),
            decreases MAX_OPEN_ORDERS_PER_USER - i,
        {
            order_ids.push(0);
            is_initialized.push(false);
            i += 1;
        }
        OpenOrders {
            owner,
            base_token_free: 0,
            quote_token_free: 0,
            base_token_locked: 0,
            quote_token_locked: 0,
            order_ids,
            is_initialized,
        }
    }

    /// First unused slot, if any.
    pub fn find_free_slot(&self) -> (r: Option<usize>)
        requires
            self.wf(),
        ensures
            match r {
                Option::Some(i) => 0 <= i < self.slots() && !self.active(i as int)
                    && (forall|j: int| 0 <= j < i ==> self.active(j)),
                Option::None => forall|i: int| 0 <= i < self.slots() ==> self.active(i),
            },
    {
        let mut i: usize = 0;
        while i < MAX_OPEN_ORDERS_PER_USER
            invariant
                self.wf(),
                i <= MAX_OPEN_ORDERS_PER_USER,
                forall|j: int| 0 <= j < i ==> self.active(j),
            decreases MAX_OPEN_ORDERS_PER_USER - i,
        {
            if !self.is_initialized[i] {
                return Some(i);
            }
            i += 1;
        }
        None
    }

    /// Registers a new open order id; fails only when every slot is taken.
    pub fn add_order(&mut self, order_id: u64) -> (r: Result<(), ErrorCode>)
        requires
            old(self).wf(),
            !old(self).holds_id(order_id),
        ensures
            final(self).wf(),
            final(self).owner == old(self).owner,
            final(self).base_token_free == old(self).base_token_free,
            final(self).quote_token_free == old(self).quote_token_free,
            final(self).base_token_locked == old(self).base_token_locked,
            final(self).quote_token_locked == old(self).quote_token_locked,
            match r {
                Result::Ok(()) => {
                    // The id lands in the least free slot; no other slot of
                    // either array moves.
                    &&& exists|s: int| {
                            &&& 0 <= s < old(self).slots()
                            &&& !old(self).active(s)
                            &&& (forall|j: int| 0 <= j < s ==> old(self).active(j))
                            &&& final(self).order_ids@
                                == #[trigger] old(self).order_ids@.update(s, order_id)
                            &&& final(self).is_initialized@
                                == old(self).is_initialized@.update(s, true)
                        }
                    &&& forall|x: u64| final(self).holds_id(x)
                            <==> (old(self).holds_id(x) || x == order_id)
                },
                Result::Err(e) => {
                    &&& e == ErrorCode::OpenOrdersFull
                    &&& forall|i: int| 0 <= i < old(self).slots() ==> old(self).active(i)
                    &&& *final(self) == *old(self)
                },
            },
    {
        let slot = match self.find_free_slot() {
            Some(s) => s,
            None => {
                return Err(ErrorCode::OpenOrdersFull);
            },
        };
        self.order_ids[slot] = order_id;
        self.is_initialized[slot] = true;
        proof {
            assert(self.order_ids@ == old(self).order_ids@.update(slot as int, order_id));
            assert(self.is_initialized@ == old(self).is_initialized@.update(slot as int, true));
            assert(self.active(slot as int) && self.id_at(slot as int) == order_id);
            assert(self.holds_id(order_id));
            assert forall|a: int, b: int|
                0 <= a < b < self.slots() && self.active(a) && self.active(b)
                implies #[trigger] self.id_at(a) != #[trigger] self.id_at(b) by {
                if a == slot as int {
                    assert(old(self).active(b) && old(self).id_at(b) == self.id_at(b));
                    if self.id_at(b) == order_id {
                        assert(old(self).holds_id(order_id));
                    }
                } else if b == slot as int {
                    assert(old(self).active(a) && old(self).id_at(a) == self.id_at(a));
                    if self.id_at(a) == order_id {
                        assert(old(self).holds_id(order_id));
                    }
                } else {
                    assert(old(self).active(a) && old(self).id_at(a) == self.id_at(a));
                    assert(old(self).active(b) && old(self).id_at(b) == self.id_at(b));
                }
            }
            assert(self.wf());
            assert forall|x: u64| self.holds_id(x)
                implies (old(self).holds_id(x) || x == order_id) by {
                if x != order_id {
                    let i = choose|i: int| 0 <= i < self.slots() && self.active(i)
                        && #[trigger] self.id_at(i) == x;
                    assert(old(self).active(i) && old(self).id_at(i) == x);
                }
            }
            assert forall|x: u64| old(self).holds_id(x) implies self.holds_id(x) by {
                let i = choose|i: int| 0 <= i < old(self).slots() && old(self).active(i)
                    && #[trigger] old(self).id_at(i) == x;
                assert(self.active(i) && self.id_at(i) == x);
            }
        }
        Ok(())
    }

    /// Strikes an open order id; fails when the id is not listed.
    pub fn remove_order(&mut self, order_id_to_remove: u64) -> (r: Result<(), ErrorCode>)
        requires
            old(self).wf(),
        ensures
            final(self).wf(),
            final(self).owner == old(self).owner,
            final(self).base_token_free == old(self).base_token_free,
            final(self).quote_token_free == old(self).quote_token_free,
            final(self).base_token_locked == old(self).base_token_locked,
            final(self).quote_token_locked == old(self).quote_token_locked,
            match r {
                Result::Ok(()) => {
                    // The first slot listing the id is cleared and zeroed;
                    // no other slot of either array moves.
                    &&& old(self).holds_id(order_id_to_remove)
                    &&& exists|s: int| {
                            &&& 0 <= s < old(self).slots()
                            &&& old(self).active(s)
                            &&& old(self).id_at(s) == order_id_to_remove
                            &&& (forall|j: int| 0 <= j < s
                                    ==> !(old(self).active(j)
                                        && old(self).id_at(j) == order_id_to_remove))
                            &&& final(self).order_ids@
                                == #[trigger] old(self).order_ids@.update(s, 0u64)
                            &&& final(self).is_initialized@
                                == old(self).is_initialized@.update(s, false)
                        }
                    &&& forall|x: u64| final(self).holds_id(x)
                            <==> (old(self).holds_id(x) && x != order_id_to_remove)
                },
                Result::Err(e) => {
                    &&& e == ErrorCode::OrderNotFoundInOpenOrders
                    &&& !old(self).holds_id(order_id_to_remove)
                    &&& *final(self) == *old(self)
                },
            },
    {
        let mut slot_opt: Option<usize> = None;
        let mut i: usize = 0;
        while i < MAX_OPEN_ORDERS_PER_USER
            invariant
                self.wf(),
                i <= MAX_OPEN_ORDERS_PER_USER,
                match slot_opt {
                    Option::Some(s) => 0 <= s < i && self.active(s as int)
                        && self.id_at(s as int) == order_id_to_remove
                        && (forall|j: int| 0 <= j < s
                            ==> !(self.active(j) && #[trigger] self.id_at(j) == order_id_to_remove)),
                    Option::None => forall|j: int| 0 <= j < i
                        ==> !(self.active(j) && #[trigger] self.id_at(j) == order_id_to_remove),
                },
            decreases MAX_OPEN_ORDERS_PER_USER - i,
        {
            if slot_opt.is_none() && self.is_initialized[i] && self.order_ids[i] == order_id_to_remove {
                slot_opt = Some(i);
            }
            i += 1;
        }
        let slot = match slot_opt {
            Some(s) => s,
            None => {
                return Err(ErrorCode::OrderNotFoundInOpenOrders);
            },
        };
        proof {
            assert(self.active(slot as int) && self.id_at(slot as int) == order_id_to_remove);
        }
        self.is_initialized[slot] = false;
        self.order_ids[slot] = 0;
        proof {
            assert(self.order_ids@ == old(self).order_ids@.update(slot as int, 0u64));
            assert(self.is_initialized@ == old(self).is_initialized@.update(slot as int, false));
            assert forall|a: int, b: int|
                0 <= a < b < self.slots() && self.active(a) && self.active(b)
                implies #[trigger] self.id_at(a) != #[trigger] self.id_at(b) by {
                assert(old(self).active(a) && old(self).id_at(a) == self.id_at(a));
                assert(old(self).active(b) && old(self).id_at(b) == self.id_at(b));
            }
            assert(self.wf());
            assert forall|x: u64| self.holds_id(x)
                implies (old(self).holds_id(x) && x != order_id_to_remove) by {
                let i2 = choose|i2: int| 0 <= i2 < self.slots() && self.active(i2)
                    && #[trigger] self.id_at(i2) == x;
                assert(old(self).active(i2) && old(self).id_at(i2) == x);
            }
            assert forall|x: u64| old(self).holds_id(x) && x != order_id_to_remove
                implies self.holds_id(x) by {
                let i2 = choose|i2: int| 0 <= i2 < old(self).slots() && old(self).active(i2)
                    && #[trigger] old(self).id_at(i2) == x;
                assert(i2 != slot as int);
                assert(self.active(i2) && self.id_at(i2) == x);
            }
        }
        Ok(())
    }

    /// Is this id listed among the entry's open orders?
    pub fn contains_order(&self, order_id: u64) -> (r: bool)
        requires
            self.wf(),
        ensures
            r <==> self.holds_id(order_id),
    {
        let mut i: usize = 0;
        while i < MAX_OPEN_ORDERS_PER_USER
            invariant
                self.wf(),
                i <= MAX_OPEN_ORDERS_PER_USER,
                forall|j: int| 0 <= j < i
                    ==> !(self.active(j) && #[trigger] self.id_at(j) == order_id),
            decreases MAX_OPEN_ORDERS_PER_USER - i,
        {
            if self.is_initialized[i] && self.order_ids[i] == order_id {
                proof {
                    assert(self.active(i as int) && self.id_at(i as int) == order_id);
                }
                return true;
            }
            i += 1;
        }
        false
    }

    /// Is any order still open on this entry?
    pub fn has_open_orders(&self) -> (r: bool)
        requires
            self.wf(),
        ensures
            r <==> exists|i: int| 0 <= i < self.slots() && self.active(i),
    {
        let mut i: usize = 0;
        while i < MAX_OPEN_ORDERS_PER_USER
            invariant
                self.wf(),
                i <= MAX_OPEN_ORDERS_PER_USER,
                forall|j: int| 0 <= j < i ==> !self.active(j),
            decreases MAX_OPEN_ORDERS_PER_USER - i,
        {
            if self.is_initialized[i] {
                proof { assert(self.active(i as int)); }
                return true;
            }
            i += 1;
        }
        false
    }
}

/// Two entries with the same order-id slots list the same open orders, and
/// well-formedness carries over; balances play no part in either.
pub proof fn lemma_same_slots(a: OpenOrders, b: OpenOrders)
    requires
        a.order_ids@ == b.order_ids@,
        a.is_initialized@ == b.is_initialized@,
    ensures
        forall|x: u64| a.holds_id(x) <==> b.holds_id(x),
        a.wf() ==> b.wf(),
{
    assert forall|x: u64| a.holds_id(x) implies b.holds_id(x) by {
        let s = choose|s: int| 0 <= s < a.slots() && a.active(s) && #[trigger] a.id_at(s) == x;
        assert(b.active(s) && b.id_at(s) == x);
    }
    assert forall|x: u64| b.holds_id(x) implies a.holds_id(x) by {
        let s = choose|s: int| 0 <= s < b.slots() && b.active(s) && #[trigger] b.id_at(s) == x;
        assert(a.active(s) && a.id_at(s) == x);
    }
    if a.wf() {
        assert forall|i: int, j: int|
            0 <= i < j < b.slots() && b.active(i) && b.active(j)
            implies #[trigger] b.id_at(i) != #[trigger] b.id_at(j) by {
            assert(a.active(i) && a.active(j));
            assert(a.id_at(i) == b.id_at(i) && a.id_at(j) == b.id_at(j));
        }
    }
}

/// All ledger entries of one market, at most one per owner. The host asks the
/// engine to resolve owners against this collection instead of letting the
/// engine enumerate accounts itself.
pub struct Ledger {
    pub entries: Vec<OpenOrders>,
}

impl Ledger {
    pub open spec fn len(&self) -> int {
        self.entries@.len() as int
    }

    pub open spec fn entry(&self, i: int) -> OpenOrders {
        self.entries@[i]
    }

    pub open spec fn has_owner(&self, owner: u64) -> bool {
        exists|i: int| 0 <= i < self.len() && (#[trigger] self.entry(i)).owner == owner
    }

    pub open spec fn wf(&self) -> bool {
        &&& forall|i: int| 0 <= i < self.len() ==> (#[trigger] self.entry(i)).wf()
        &&& forall|i: int, j: int| 0 <= i < j < self.len()
                ==> (#[trigger] self.entry(i)).owner != (#[trigger] self.entry(j)).owner
    }

    pub fn new() -> (r: Ledger)
        ensures
            r.wf(),
            r.len() == 0,
    {
        Ledger { entries: Vec::new() }
    }

    /// Index of the entry belonging to `owner`, if one exists.
    pub fn find_entry(&self, owner: u64) -> (r: Option<usize>)
        requires
            self.wf(),
        ensures
            match r {
                Option::Some(i) => 0 <= i < self.len() && self.entry(i as int).owner == owner,
                Option::None => !self.has_owner(owner),
            },
    {
        let mut i: usize = 0;
        let n = self.entries.len();
        while i < n
            invariant
                self.wf(),
                n == self.len(),
                i <= n,
                forall|j: int| 0 <= j < i ==> (#[trigger] self.entry(j)).owner != owner,
            decreases n - i,
        {
            if self.entries[i].owner == owner {
                return Some(i);
            }
            i += 1;
        }
        None
    }

    /// Mutable access to one entry; the caller owes the ledger invariant back.
    pub fn entry_mut(&mut self, i: usize) -> (e: &mut OpenOrders)
        requires
            i < old(self).len(),
        ensures
            *e == old(self).entry(i as int),
            final(self).entries@ == old(self).entries@.update(i as int, *final(e)),
    {
        &mut self.entries[i]
    }

    /// Index of the entry belonging to `owner`, creating a fresh empty entry
    /// on first use — ledger entries come to exist lazily, at first order.
    pub fn find_or_create(&mut self, owner: u64) -> (i: usize)
        requires
            old(self).wf(),
        ensures
            final(self).wf(),
            0 <= i < final(self).len(),
            final(self).entry(i as int).owner == owner,
            forall|j: int| 0 <= j < old(self).len() ==> final(self).entry(j) == old(self).entry(j),
            old(self).has_owner(owner) ==> final(self).len() == old(self).len(),
            !old(self).has_owner(owner) ==> {
                &&& final(self).len() == old(self).len() + 1
                &&& i as int == old(self).len()
                &&& final(self).entry(i as int).base_token_free == 0
                &&& final(self).entry(i as int).quote_token_free == 0
                &&& final(self).entry(i as int).base_token_locked == 0
                &&& final(self).entry(i as int).quote_token_locked == 0
                &&& forall|s: int| 0 <= s < final(self).entry(i as int).slots()
                        ==> !final(self).entry(i as int).active(s)
            },
    {
        match self.find_entry(owner) {
            Some(i) => i,
            None => {
                let i = self.entries.len();
                self.entries.push(OpenOrders::new(owner));
                proof {
                    assert(self.entry(i as int).owner == owner);
                    assert forall|a: int| 0 <= a < self.len()
                        implies (#[trigger] self.entry(a)).wf() by {
                        if a < i as int {
                            assert(self.entry(a) == old(self).entry(a));
                        }
                    }
                    assert forall|a: int, b: int| 0 <= a < b < self.len()
                        implies (#[trigger] self.entry(a)).owner != (#[trigger] self.entry(b)).owner by {
                        assert(self.entry(a) == old(self).entry(a));
                        if b == i as int {
                            assert(old(self).entry(a).owner != owner);
                        } else {
                            assert(self.entry(b) == old(self).entry(b));
                        }
                    }
                }
                i
            },
        }
    }
}

} // verus!
