//! One side of the market: a fixed-capacity arena of nodes that doubles as a
//! free list (singly linked through `next`) and a live list (doubly linked,
//! kept sorted by price/time priority).

use vstd::prelude::*;
use crate::types::{ErrorCode, NodeTag, Order, OrderNode, SENTINEL};

verus! {

/// A bid or ask book. `nodes` is the arena; every slot is at all times on
/// exactly one of the two lists tracked by the ghost sequences `live` and
/// `free`, which hold arena indices in list order.
pub struct OrderBook {
    pub is_bids: bool,
    pub head: u32,
    pub tail: u32,
    pub free_list_head: u32,
    pub count: u32,
    pub nodes: Vec<OrderNode>,
    pub live: Ghost<Seq<int>>,
    pub free: Ghost<Seq<int>>,
}

/// Sort rule of a book side: does `a` rest strictly ahead of `b`?
/// Price priority first; among equal prices the earlier (smaller) id wins.
pub open spec fn precedes(is_bids: bool, a: Order, b: Order) -> bool {
    if is_bids {
        a.price > b.price || (a.price == b.price && a.order_id < b.order_id)
    } else {
        a.price < b.price || (a.price == b.price && a.order_id < b.order_id)
    }
}

/// Position where an order belongs in a sorted run: the first index whose
/// occupant the new order must precede, or the length if there is none.
pub open spec fn insert_pos(is_bids: bool, s: Seq<Order>, o: Order) -> int
    decreases s.len(),
{
    if s.len() == 0 {
        0
    } else if precedes(is_bids, o, s[0]) {
        0
    } else {
        1 + insert_pos(is_bids, s.drop_first(), o)
    }
}

/// The insertion position always lies within the run.
pub proof fn lemma_insert_pos_range(is_bids: bool, s: Seq<Order>, o: Order)
    ensures
        0 <= insert_pos(is_bids, s, o) <= s.len(),
    decreases s.len(),
{
    if s.len() == 0 {
    } else if precedes(is_bids, o, s[0]) {
    } else {
        lemma_insert_pos_range(is_bids, s.drop_first(), o);
    }
}

/// With distinct ids the sort rule is total: two orders always compare.
proof fn lemma_precedes_total(is_bids: bool, a: Order, b: Order)
    requires
        a.order_id != b.order_id,
        !precedes(is_bids, a, b),
    ensures
        precedes(is_bids, b, a),
{
}

/// The sort rule is transitive.
proof fn lemma_precedes_trans(is_bids: bool, a: Order, b: Order, c: Order)
    requires
        precedes(is_bids, a, b),
        precedes(is_bids, b, c),
    ensures
        precedes(is_bids, a, c),
{
}

/// A linear scan that passes every order it does not precede and stops at the
/// first it does lands exactly on `insert_pos`.
proof fn lemma_scan_finds_insert_pos(is_bids: bool, s: Seq<Order>, o: Order, k: int)
    requires
        0 <= k <= s.len(),
        forall|j: int| 0 <= j < k ==> !precedes(is_bids, o, #[trigger] s[j]),
        k < s.len() ==> precedes(is_bids, o, s[k]),
    ensures
        insert_pos(is_bids, s, o) == k,
    decreases k,
{
    if k == 0 {
    } else {
        assert(!precedes(is_bids, o, s[0]));
        let t = s.drop_first();
        assert forall|j: int| 0 <= j < k - 1 implies !precedes(is_bids, o, #[trigger] t[j]) by {
            assert(t[j] == s[j + 1]);
        }
        if k - 1 < t.len() {
            assert(t[k - 1] == s[k]);
        }
        lemma_scan_finds_insert_pos(is_bids, t, o, k - 1);
    }
}

/// Ordering law: in a well-formed book, walking the live list from head to
/// tail yields prices that never worsen — non-increasing for a bid book,
/// non-decreasing for an ask book — and within an equal-price run the order
/// ids strictly increase, so arrival order breaks price ties. Every public
/// operation of `OrderBook` preserves `wf`, so this holds after any sequence
/// of insertions and removals.
pub proof fn lemma_book_ordering(book: &OrderBook, i: int, j: int)
    requires
        book.wf(),
        0 <= i < j < book.orders().len(),
    ensures
        book.is_bids ==> book.orders()[i].price >= book.orders()[j].price,
        !book.is_bids ==> book.orders()[i].price <= book.orders()[j].price,
        book.orders()[i].price == book.orders()[j].price
            ==> book.orders()[i].order_id < book.orders()[j].order_id,
    decreases j - i,
{
    assert(precedes(book.is_bids, book.orders()[i], book.orders()[i + 1]));
    if i + 1 < j {
        lemma_book_ordering(book, i + 1, j);
    }
}

impl OrderBook {
    /// Fixed number of arena slots.
    pub open spec fn capacity(&self) -> int {
        self.nodes@.len() as int
    }

    pub open spec fn valid_index(&self, i: int) -> bool {
        0 <= i < self.nodes@.len()
    }

    /// The live orders, best first: the view every contract speaks of.
    pub open spec fn orders(&self) -> Seq<Order> {
        Seq::new(self.live@.len(), |k: int| self.nodes@[self.live@[k]].order)
    }

    /// The live list is a well-linked doubly-linked list through the arena.
    pub open spec fn live_linked(&self) -> bool {
        let live = self.live@;
        &&& forall|k: int| 0 <= k < live.len() ==> self.valid_index(#[trigger] live[k])
        &&& forall|k: int| 0 <= k < live.len() ==> {
                let node = #[trigger] self.nodes@[live[k]];
                &&& node.tag == NodeTag::OrderNode
                &&& node.next as int == if k == live.len() - 1 { SENTINEL as int } else { live[k + 1] }
                &&& node.prev as int == if k == 0 { SENTINEL as int } else { live[k - 1] }
            }
        &&& self.head as int == if live.len() == 0 { SENTINEL as int } else { live[0] }
        &&& self.tail as int == if live.len() == 0 { SENTINEL as int } else { live[live.len() - 1] }
    }

    /// The free list is a well-linked singly-linked list through the arena.
    pub open spec fn free_linked(&self) -> bool {
        let free = self.free@;
        &&& forall|k: int| 0 <= k < free.len() ==> self.valid_index(#[trigger] free[k])
        &&& forall|k: int| 0 <= k < free.len() ==> {
                let node = #[trigger] self.nodes@[free[k]];
                &&& node.tag == NodeTag::FreeNode
                &&& node.next as int == if k == free.len() - 1 { SENTINEL as int } else { free[k + 1] }
            }
        &&& self.free_list_head as int == if free.len() == 0 { SENTINEL as int } else { free[0] }
    }

    /// Every slot is on exactly one of the two lists.
    pub open spec fn partitioned(&self) -> bool {
        &&& self.live@.no_duplicates()
        &&& self.free@.no_duplicates()
        &&& forall|k: int, j: int| 0 <= k < self.live@.len() && 0 <= j < self.free@.len()
                ==> #[trigger] self.live@[k] != #[trigger] self.free@[j]
        &&& self.live@.len() + self.free@.len() == self.nodes@.len()
    }

    /// Adjacent live orders obey the side's sort rule.
    pub open spec fn sorted(&self) -> bool {
        forall|k: int| 0 <= k < self.orders().len() - 1
            ==> #[trigger] precedes(self.is_bids, self.orders()[k], self.orders()[k + 1])
    }

    /// Live orders have positive remaining quantity and pairwise distinct ids.
    pub open spec fn live_orders_ok(&self) -> bool {
        &&& forall|k: int| 0 <= k < self.orders().len() ==> (#[trigger] self.orders()[k]).base_qty > 0
        &&& forall|k: int, j: int| 0 <= k < j < self.orders().len()
                ==> (#[trigger] self.orders()[k]).order_id != (#[trigger] self.orders()[j]).order_id
    }

    /// Well-formedness: the invariant every public operation preserves.
    pub open spec fn wf(&self) -> bool {
        &&& self.nodes@.len() < SENTINEL as int
        &&& self.live_linked()
        &&& self.free_linked()
        &&& self.partitioned()
        &&& self.sorted()
        &&& self.live_orders_ok()
        &&& self.count as int == self.live@.len()
    }

    /// What slot `i` of a freshly built book of `capacity` slots holds: a
    /// zeroed order, a free tag, and a `next` link to slot `i + 1` — the
    /// last slot ends the free list.
    pub open spec fn fresh_node(i: int, capacity: int) -> OrderNode {
        OrderNode {
            order: Order { owner_account: 0, order_id: 0, price: 0, base_qty: 0 },
            next: if i == capacity - 1 { SENTINEL } else { (i + 1) as u32 },
            prev: SENTINEL,
            tag: NodeTag::FreeNode,
        }
    }

    /// Builds a book whose `capacity` slots are pre-linked as one free list
    /// in slot order: slot `i` links to `i + 1`, the last to the sentinel.
    pub fn initialize(capacity: usize, is_bids: bool) -> (book: OrderBook)
        requires
            capacity < SENTINEL,
        ensures
            book.wf(),
            book.is_bids == is_bids,
            book.capacity() == capacity,
            book.orders() =~= Seq::<Order>::empty(),
            book.count == 0,
            book.head == SENTINEL,
            book.tail == SENTINEL,
            book.free_list_head == (if capacity == 0 { SENTINEL } else { 0u32 }),
            book.free@ == Seq::new(capacity as nat, |k: int| k),
            forall|i: int| 0 <= i < capacity
                ==> book.nodes@[i] == Self::fresh_node(i, capacity as int),
    {
        let mut nodes: Vec<OrderNode> = Vec::new();
        let blank = Order { owner_account: 0, order_id: 0, price: 0, base_qty: 0 };
        let mut i: usize = 0;
        while i < capacity
            invariant
                i <= capacity,
                capacity < SENTINEL,
                nodes@.len() == i,
                blank == (Order { owner_account: 0, order_id: 0, price: 0, base_qty: 0 }),
                forall|k: int| 0 <= k < i ==> #[trigger] nodes@[k] == Self::fresh_node(k, capacity as int),
            decreases capacity - i,
        {
            let next = if i + 1 == capacity { SENTINEL } else { (i + 1) as u32 };
            nodes.push(OrderNode { order: blank, next, prev: SENTINEL, tag: NodeTag::FreeNode });
            proof {
                assert(nodes@[i as int] == Self::fresh_node(i as int, capacity as int));
            }
            i += 1;
        }
        let free_list_head = if capacity == 0 { SENTINEL } else { 0 };
        let book = OrderBook {
            is_bids,
            head: SENTINEL,
            tail: SENTINEL,
            free_list_head,
            count: 0,
            nodes,
            live: Ghost(Seq::empty()),
            free: Ghost(Seq::new(capacity as nat, |k: int| k)),
        };
        book
    }

    /// Pops the free-list head and hands it out as a detached occupied node.
    fn new_node(&mut self) -> (r: Result<u32, ErrorCode>)
        requires
            old(self).wf(),
        ensures
            final(self).is_bids == old(self).is_bids,
            final(self).head == old(self).head,
            final(self).tail == old(self).tail,
            final(self).live == old(self).live,
            match r {
                Result::Ok(idx) => {
                    &&& old(self).free@.len() > 0
                    &&& idx as int == old(self).free@[0]
                    &&& final(self).free@ == old(self).free@.drop_first()
                    &&& final(self).nodes@ == old(self).nodes@.update(idx as int, OrderNode {
                            order: old(self).nodes@[idx as int].order,
                            next: SENTINEL,
                            prev: SENTINEL,
                            tag: NodeTag::OrderNode,
                        })
                    &&& final(self).count == old(self).count + 1
                    &&& final(self).free_linked()
                },
                Result::Err(e) => {
                    &&& e == ErrorCode::OrderBookFull
                    &&& old(self).free@.len() == 0
                    &&& final(self).free@ == old(self).free@
                    &&& final(self).nodes@ == old(self).nodes@
                    &&& final(self).count == old(self).count
                    &&& final(self).free_list_head == old(self).free_list_head
                },
            },
    {
        if self.free_list_head == SENTINEL {
            return Err(ErrorCode::OrderBookFull);
        }
        let new_node_index = self.free_list_head;
        let next_free_node_index = self.nodes[new_node_index as usize].next;
        self.free_list_head = next_free_node_index;
        let node = self.nodes[new_node_index as usize];
        self.nodes[new_node_index as usize] = OrderNode {
            order: node.order,
            next: SENTINEL,
            prev: SENTINEL,
            tag: NodeTag::OrderNode,
        };
        proof {
            assert(self.live@.len() + self.free@.len() == self.nodes@.len());
        }
        self.count = self.count + 1;
        self.free = Ghost(self.free@.drop_first());
        Ok(new_node_index)
    }

    /// Pushes a detached node back onto the free-list head.
    fn release_node(&mut self, node_index: u32) -> (r: Result<(), ErrorCode>)
        requires
            old(self).valid_index(node_index as int),
            old(self).free_linked(),
            old(self).free@.no_duplicates(),
            !old(self).free@.contains(node_index as int),
            old(self).count > 0,
            old(self).nodes@.len() < SENTINEL as int,
        ensures
            r == Result::<(), ErrorCode>::Ok(()),
            final(self).is_bids == old(self).is_bids,
            final(self).head == old(self).head,
            final(self).tail == old(self).tail,
            final(self).live == old(self).live,
            final(self).free@ == old(self).free@.insert(0, node_index as int),
            final(self).nodes@ == old(self).nodes@.update(node_index as int, OrderNode {
                    order: old(self).nodes@[node_index as int].order,
                    next: old(self).free_list_head,
                    prev: old(self).nodes@[node_index as int].prev,
                    tag: NodeTag::FreeNode,
                }),
            final(self).count == old(self).count - 1,
            final(self).free_linked(),
            final(self).free@.no_duplicates(),
    {
        let current_free_list_head = self.free_list_head;
        let node = self.nodes[node_index as usize];
        self.nodes[node_index as usize] = OrderNode {
            order: node.order,
            next: current_free_list_head,
            prev: node.prev,
            tag: NodeTag::FreeNode,
        };
        self.free_list_head = node_index;
        self.count = self.count - 1;
        self.free = Ghost(self.free@.insert(0, node_index as int));
        proof {
            assert(self.free@ =~= seq![node_index as int] + old(self).free@);
        }
        Ok(())
    }

    /// Inserts an order at its price/time-priority position. The only failure
    /// is a full book, which leaves the book untouched.
    #[verifier::rlimit(100)]
    pub fn add_order(&mut self, order: Order) -> (r: Result<(), ErrorCode>)
        requires
            old(self).wf(),
            order.base_qty > 0,
            forall|k: int| 0 <= k < old(self).orders().len()
                ==> (#[trigger] old(self).orders()[k]).order_id != order.order_id,
        ensures
            final(self).wf(),
            final(self).is_bids == old(self).is_bids,
            final(self).capacity() == old(self).capacity(),
            match r {
                Result::Ok(()) => {
                    &&& old(self).orders().len() < old(self).capacity()
                    &&& final(self).orders() == old(self).orders().insert(
                            insert_pos(old(self).is_bids, old(self).orders(), order), order)
                    &&& final(self).count == old(self).count + 1
                },
                Result::Err(e) => {
                    &&& e == ErrorCode::OrderBookFull
                    &&& old(self).orders().len() == old(self).capacity()
                    &&& *final(self) == *old(self)
                },
            },
    {
        if self.free_list_head == SENTINEL {
            proof {
                assert(self.free@.len() == 0);
                assert(self.orders().len() == self.capacity());
            }
            return Err(ErrorCode::OrderBookFull);
        }

        let ghost olds = self.orders();

        // Find the first resting node the new order must precede.
        let mut insertion_point = self.head;
        let ghost mut k: int = 0;
        loop
            invariant
                self == old(self),
                self.wf(),
                0 <= k <= olds.len(),
                olds == self.orders(),
                insertion_point as int == if k == olds.len() { SENTINEL as int } else { self.live@[k] },
                forall|j: int| 0 <= j < k ==> !precedes(self.is_bids, order, #[trigger] olds[j]),
            ensures
                self == old(self),
                0 <= k <= olds.len(),
                insertion_point as int == if k == olds.len() { SENTINEL as int } else { self.live@[k] },
                forall|j: int| 0 <= j < k ==> !precedes(self.is_bids, order, #[trigger] olds[j]),
                k < olds.len() ==> precedes(self.is_bids, order, olds[k]),
            decreases olds.len() - k,
        {
            if insertion_point == SENTINEL {
                proof { assert(k == olds.len()); }
                break;
            }
            let current_node = &self.nodes[insertion_point as usize];

            let should_insert_before = if self.is_bids {
                order.price > current_node.order.price
                    || (order.price == current_node.order.price
                        && order.order_id < current_node.order.order_id)
            } else {
                order.price < current_node.order.price
                    || (order.price == current_node.order.price
                        && order.order_id < current_node.order.order_id)
            };

            if should_insert_before {
                break;
            }
            insertion_point = current_node.next;
            proof { k = k + 1; }
        }

        proof {
            lemma_scan_finds_insert_pos(self.is_bids, olds, order, k);
        }

        let new_node_index = match self.new_node() {
            Ok(i) => i,
            Err(e) => {
                proof { assert(false); }
                return Err(e);
            },
        };

        proof {
            // The fresh node came off the free list, so it is not live and the
            // view of resting orders is untouched so far.
            assert(forall|j: int| 0 <= j < self.live@.len()
                ==> #[trigger] self.live@[j] != new_node_index as int);
            assert(self.orders() =~= olds);
            assert(self.orders() == olds);
            assert(forall|j: int| 0 <= j < self.free@.len()
                ==> #[trigger] self.free@[j] == old(self).free@[j + 1]);
            assert(!self.free@.contains(new_node_index as int));
            assert(self.free@.no_duplicates());
        }

        self.splice_in(new_node_index, insertion_point, order, Ghost(k), Ghost(olds));
        Ok(())
    }

    /// Links a freshly allocated, detached node into the live list just before
    /// `insertion_point` (position `k` of the current run of orders).
    #[verifier::rlimit(100)]
    fn splice_in(&mut self, new_node_index: u32, insertion_point: u32, order: Order,
        Ghost(k): Ghost<int>, Ghost(olds): Ghost<Seq<Order>>)
        requires
            old(self).nodes@.len() < SENTINEL as int,
            old(self).live_linked(),
            old(self).free_linked(),
            old(self).live@.no_duplicates(),
            old(self).free@.no_duplicates(),
            forall|a: int, b: int| 0 <= a < old(self).live@.len() && 0 <= b < old(self).free@.len()
                ==> #[trigger] old(self).live@[a] != #[trigger] old(self).free@[b],
            old(self).live@.len() + old(self).free@.len() + 1 == old(self).nodes@.len(),
            old(self).valid_index(new_node_index as int),
            !old(self).live@.contains(new_node_index as int),
            !old(self).free@.contains(new_node_index as int),
            old(self).nodes@[new_node_index as int].tag == NodeTag::OrderNode,
            old(self).sorted(),
            old(self).live_orders_ok(),
            old(self).count as int == old(self).live@.len() + 1,
            olds == old(self).orders(),
            0 <= k <= olds.len(),
            insertion_point as int == if k == olds.len() { SENTINEL as int } else { old(self).live@[k] },
            forall|j: int| 0 <= j < k ==> !precedes(old(self).is_bids, order, #[trigger] olds[j]),
            k < olds.len() ==> precedes(old(self).is_bids, order, olds[k]),
            order.base_qty > 0,
            forall|j: int| 0 <= j < olds.len() ==> (#[trigger] olds[j]).order_id != order.order_id,
        ensures
            final(self).wf(),
            final(self).is_bids == old(self).is_bids,
            final(self).capacity() == old(self).capacity(),
            final(self).count == old(self).count,
            final(self).orders() == olds.insert(k, order),
    {
        let prev_node_index: u32;
        let next_node_index = insertion_point;

        if next_node_index == self.head {
            proof {
                // A live index equal to the head must be the first one.
                if self.live@.len() > 0 && k != 0 {
                    assert(k < olds.len());
                    assert(self.live@[k] == self.live@[0]);
                }
                assert(k == 0);
            }
            prev_node_index = SENTINEL;
            self.head = new_node_index;
        } else {
            proof { assert(k > 0); }
            if next_node_index == SENTINEL {
                prev_node_index = self.tail;
            } else {
                prev_node_index = self.nodes[next_node_index as usize].prev;
            }
            proof { assert(prev_node_index as int == self.live@[k - 1]); }
            let p = prev_node_index as usize;
            let pn = self.nodes[p];
            self.nodes[p] = OrderNode { order: pn.order, next: new_node_index, prev: pn.prev, tag: pn.tag };
        }

        if next_node_index == SENTINEL {
            self.tail = new_node_index;
        } else {
            let n = next_node_index as usize;
            let nn = self.nodes[n];
            self.nodes[n] = OrderNode { order: nn.order, next: nn.next, prev: new_node_index, tag: nn.tag };
        }

        let i = new_node_index as usize;
        self.nodes[i] = OrderNode { order, next: next_node_index, prev: prev_node_index, tag: NodeTag::OrderNode };

        let ghost oldlive = old(self).live@;
        let ghost idx = new_node_index as int;
        let ghost n = oldlive.len() as int;
        self.live = Ghost(Seq::new((n + 1) as nat,
            |j: int| if j < k { oldlive[j] } else if j == k { idx } else { oldlive[j - 1] }));

        proof {
            let newlive = self.live@;
            let oldfree = old(self).free@;
            assert(forall|j: int| 0 <= j < n ==> #[trigger] oldlive[j] != idx);

            assert forall|a: int, b: int| 0 <= a < newlive.len() && 0 <= b < newlive.len() && a != b
                implies newlive[a] != newlive[b] by {
            }

            // The splice touched only the neighbour nodes and the new slot,
            // all of which sit outside the untouched remainder of each list.
            assert forall|j: int| 0 <= j < newlive.len()
                implies self.valid_index(#[trigger] newlive[j]) by {
            }
            assert forall|j: int| 0 <= j < newlive.len() implies {
                let node = #[trigger] self.nodes@[newlive[j]];
                &&& node.tag == NodeTag::OrderNode
                &&& node.next as int == (if j == newlive.len() - 1 { SENTINEL as int } else { newlive[j + 1] })
                &&& node.prev as int == (if j == 0 { SENTINEL as int } else { newlive[j - 1] })
            } by {
            }
            assert(self.live_linked());

            assert forall|j: int| 0 <= j < self.free@.len()
                implies self.valid_index(#[trigger] self.free@[j]) by {
            }
            assert forall|j: int| 0 <= j < self.free@.len() implies {
                let node = #[trigger] self.nodes@[self.free@[j]];
                &&& node.tag == NodeTag::FreeNode
                &&& node.next as int == (if j == self.free@.len() - 1 { SENTINEL as int } else { self.free@[j + 1] })
            } by {
                assert(self.free@[j] != idx);
                if k > 0 { assert(self.free@[j] != oldlive[k - 1]); }
                if k < n { assert(self.free@[j] != oldlive[k]); }
            }
            assert(self.free_linked());
            assert(self.partitioned());

            let news = self.orders();
            olds.insert_ensures(k, order);
            assert forall|j: int| 0 <= j < news.len()
                implies #[trigger] news[j] == olds.insert(k, order)[j] by {
                if j < k {
                    assert(news[j] == olds[j]);
                } else if j > k {
                    assert(news[j] == olds[j - 1]);
                }
            }
            assert(news =~= olds.insert(k, order));

            if k > 0 {
                lemma_precedes_total(self.is_bids, order, olds[k - 1]);
            }
            assert forall|j: int| 0 <= j < news.len() - 1
                implies precedes(self.is_bids, #[trigger] news[j], news[j + 1]) by {
                if j < k - 1 {
                    assert(news[j] == olds[j] && news[j + 1] == olds[j + 1]);
                } else if j == k - 1 {
                    assert(news[j] == olds[j] && news[j + 1] == order);
                } else if j == k {
                    assert(news[j] == order && news[j + 1] == olds[j]);
                } else {
                    assert(news[j] == olds[j - 1] && news[j + 1] == olds[j]);
                }
            }
            assert(self.sorted());
            assert(self.live_orders_ok());
        }
    }

    /// Unsplices an occupied node from the live list and frees its slot.
    /// The caller must have obtained `node_index` from a lookup on this book.
    #[verifier::rlimit(100)]
    pub fn remove_order(&mut self, node_index: u32) -> (r: Result<(), ErrorCode>)
        requires
            old(self).wf(),
            old(self).live@.contains(node_index as int),
        ensures
            r == Result::<(), ErrorCode>::Ok(()),
            final(self).wf(),
            final(self).is_bids == old(self).is_bids,
            final(self).capacity() == old(self).capacity(),
            final(self).count == old(self).count - 1,
            exists|k: int| 0 <= k < old(self).orders().len()
                && #[trigger] old(self).live@[k] == node_index as int
                && final(self).orders() == old(self).orders().remove(k),
            // The freed slot lands on the free-list head, tagged free.
            final(self).free@ == old(self).free@.insert(0, node_index as int),
            final(self).free_list_head == node_index,
            final(self).nodes@[node_index as int].tag == NodeTag::FreeNode,
            final(self).nodes@[node_index as int].next == old(self).free_list_head,
            final(self).nodes@[node_index as int].order == old(self).nodes@[node_index as int].order,
    {
        let ghost oldlive = self.live@;
        let ghost olds = self.orders();
        let ghost n = oldlive.len() as int;
        let ghost kpos = choose|kk: int| 0 <= kk < oldlive.len() && oldlive[kk] == node_index as int;

        let node = self.nodes[node_index as usize];
        let prev_index = node.prev;
        let next_index = node.next;

        proof {
            assert(self.nodes@[oldlive[kpos]] == node);
            if kpos > 0 { assert(prev_index as int == oldlive[kpos - 1]); }
            if kpos < n - 1 { assert(next_index as int == oldlive[kpos + 1]); }
        }

        if prev_index != SENTINEL {
            proof { assert(kpos > 0); }
            let p = prev_index as usize;
            let pn = self.nodes[p];
            self.nodes[p] = OrderNode { order: pn.order, next: next_index, prev: pn.prev, tag: pn.tag };
        } else {
            proof { assert(kpos == 0); }
            self.head = next_index;
        }
        if next_index != SENTINEL {
            proof { assert(kpos < n - 1); }
            let q = next_index as usize;
            let qn = self.nodes[q];
            self.nodes[q] = OrderNode { order: qn.order, next: qn.next, prev: prev_index, tag: qn.tag };
        } else {
            proof { assert(kpos == n - 1); }
            self.tail = prev_index;
        }

        self.live = Ghost(Seq::new((n - 1) as nat,
            |j: int| if j < kpos { oldlive[j] } else { oldlive[j + 1] }));

        proof {
            assert(forall|a: int, b: int|
                0 <= a < oldlive.len() && 0 <= b < self.free@.len()
                    ==> #[trigger] oldlive[a] != #[trigger] self.free@[b]);
            assert forall|j: int| 0 <= j < self.free@.len() implies {
                let fnode = #[trigger] self.nodes@[self.free@[j]];
                &&& fnode.tag == NodeTag::FreeNode
                &&& fnode.next as int
                    == (if j == self.free@.len() - 1 { SENTINEL as int } else { self.free@[j + 1] })
            } by {
                if kpos > 0 { assert(self.free@[j] != oldlive[kpos - 1]); }
                if kpos < n - 1 { assert(self.free@[j] != oldlive[kpos + 1]); }
            }
            assert(self.free_linked());
            assert(!self.free@.contains(node_index as int));
        }

        let r = self.release_node(node_index);

        proof {
            let newlive = self.live@;
            let ghost midnodes = old(self).nodes@;
            assert forall|j: int| 0 <= j < newlive.len()
                implies self.valid_index(#[trigger] newlive[j]) by {
            }
            assert forall|j: int| 0 <= j < newlive.len() implies {
                let lnode = #[trigger] self.nodes@[newlive[j]];
                &&& lnode.tag == NodeTag::OrderNode
                &&& lnode.next as int == (if j == newlive.len() - 1 { SENTINEL as int } else { newlive[j + 1] })
                &&& lnode.prev as int == (if j == 0 { SENTINEL as int } else { newlive[j - 1] })
            } by {
                assert(newlive[j] != node_index as int);
                if j >= kpos { assert(newlive[j] == oldlive[j + 1]); }
            }
            assert(self.live_linked());
            assert(self.partitioned());

            let news = self.orders();
            olds.remove_ensures(kpos);
            assert forall|j: int| 0 <= j < news.len()
                implies #[trigger] news[j] == olds.remove(kpos)[j] by {
                if j < kpos {
                    assert(news[j] == olds[j]);
                } else {
                    assert(news[j] == olds[j + 1]);
                }
            }
            assert(news =~= olds.remove(kpos));

            assert forall|j: int| 0 <= j < news.len() - 1
                implies #[trigger] precedes(self.is_bids, news[j], news[j + 1]) by {
                if j == kpos - 1 {
                    lemma_precedes_trans(self.is_bids, olds[j], olds[kpos], olds[j + 2]);
                }
            }
            assert(self.sorted());
            assert(self.live_orders_ok());
        }
        r
    }

    /// Best order on this side, or none if the book is empty.
    pub fn get_best_price_order(&self) -> (r: Option<Order>)
        requires
            self.wf(),
        ensures
            r == if self.orders().len() == 0 { None::<Order> } else { Some(self.orders()[0]) },
    {
        if self.head == SENTINEL {
            None
        } else {
            Some(self.nodes[self.head as usize].order)
        }
    }

    /// Linear scan for an order id, best order first; used on the cold
    /// cancellation path. Returns the arena index and a copy of the order.
    pub fn find_order_by_id(&self, order_id: u64) -> (r: Option<(u32, Order)>)
        requires
            self.wf(),
        ensures
            match r {
                Option::Some((idx, order)) => {
                    &&& order.order_id == order_id
                    &&& exists|k: int| 0 <= k < self.orders().len()
                            && #[trigger] self.live@[k] == idx as int
                            && self.orders()[k] == order
                },
                Option::None => forall|k: int| 0 <= k < self.orders().len()
                    ==> (#[trigger] self.orders()[k]).order_id != order_id,
            },
    {
        let mut current_index = self.head;
        let ghost mut k: int = 0;
        loop
            invariant
                self.wf(),
                0 <= k <= self.orders().len(),
                current_index as int
                    == if k == self.orders().len() { SENTINEL as int } else { self.live@[k] },
                forall|j: int| 0 <= j < k ==> (#[trigger] self.orders()[j]).order_id != order_id,
            decreases self.orders().len() - k,
        {
            if current_index == SENTINEL {
                proof { assert(k == self.orders().len()); }
                return None;
            }
            let node = &self.nodes[current_index as usize];
            if node.order.order_id == order_id {
                proof { assert(self.orders()[k] == node.order); }
                return Some((current_index, node.order));
            }
            current_index = node.next;
            proof { k = k + 1; }
        }
    }

    /// Overwrites the quantity of the best order in place after a partial
    /// fill; its price, id and owner — and so its position — are unchanged.
    pub fn update_best_order(&mut self, order: Order) -> (r: Result<(), ErrorCode>)
        requires
            old(self).wf(),
            old(self).orders().len() > 0,
            order.base_qty > 0,
            order.price == old(self).orders()[0].price,
            order.order_id == old(self).orders()[0].order_id,
            order.owner_account == old(self).orders()[0].owner_account,
        ensures
            r == Result::<(), ErrorCode>::Ok(()),
            final(self).wf(),
            final(self).is_bids == old(self).is_bids,
            final(self).capacity() == old(self).capacity(),
            final(self).count == old(self).count,
            final(self).orders() == old(self).orders().update(0, order),
    {
        let h = self.head as usize;
        let hn = self.nodes[h];
        self.nodes[h] = OrderNode { order, next: hn.next, prev: hn.prev, tag: hn.tag };
        proof {
            let news = self.orders();
            let olds = old(self).orders();
            assert forall|j: int| 0 <= j < news.len()
                implies #[trigger] news[j] == olds.update(0, order)[j] by {
                if j > 0 { assert(self.live@[j] != self.live@[0]); }
            }
            assert(news =~= olds.update(0, order));
            assert forall|j: int| 0 <= j < self.free@.len() implies {
                let fnode = #[trigger] self.nodes@[self.free@[j]];
                &&& fnode.tag == NodeTag::FreeNode
                &&& fnode.next as int
                    == (if j == self.free@.len() - 1 { SENTINEL as int } else { self.free@[j + 1] })
            } by {
                assert(self.free@[j] != self.live@[0]);
            }
            assert(self.free_linked());
            assert forall|j: int| 0 <= j < self.live@.len() implies {
                let lnode = #[trigger] self.nodes@[self.live@[j]];
                &&& lnode.tag == NodeTag::OrderNode
                &&& lnode.next as int
                    == (if j == self.live@.len() - 1 { SENTINEL as int } else { self.live@[j + 1] })
                &&& lnode.prev as int == (if j == 0 { SENTINEL as int } else { self.live@[j - 1] })
            } by {
                if j > 0 { assert(self.live@[j] != self.live@[0]); }
            }
            assert(self.live_linked());
            assert forall|j: int| 0 <= j < news.len() - 1
                implies #[trigger] precedes(self.is_bids, news[j], news[j + 1]) by {
                assert(precedes(self.is_bids, olds[j], olds[j + 1]));
            }
            assert(self.sorted());
            assert(self.live_orders_ok());
        }
        Ok(())
    }

    /// The node at a given arena index, or none for the sentinel.
    pub fn get_node(&self, node_index: u32) -> (r: Option<&OrderNode>)
        requires
            node_index == SENTINEL || self.valid_index(node_index as int),
        ensures
            r == if node_index == SENTINEL { None::<&OrderNode> } else { Some(&self.nodes@[node_index as int]) },
    {
        if node_index == SENTINEL {
            None
        } else {
            Some(&self.nodes[node_index as usize])
        }
    }
}

} // verus!
