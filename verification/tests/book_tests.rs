use order_book_dex::book::OrderBook;
use order_book_dex::types::{ErrorCode, NodeTag, Order, SENTINEL};

fn order(owner: u64, id: u64, price: u64, qty: u64) -> Order {
    Order { owner_account: owner, order_id: id, price, base_qty: qty }
}

/// Walks the live list head to tail and returns the orders in book order.
fn walk(book: &OrderBook) -> Vec<Order> {
    let mut out = Vec::new();
    let mut idx = book.head;
    while idx != SENTINEL {
        let node = &book.nodes[idx as usize];
        assert_eq!(node.tag, NodeTag::OrderNode);
        out.push(node.order);
        idx = node.next;
    }
    out
}

#[test]
fn initialize_builds_empty_book() {
    let book = OrderBook::initialize(64, true);
    assert_eq!(book.count, 0);
    assert_eq!(book.head, SENTINEL);
    assert_eq!(book.tail, SENTINEL);
    assert_eq!(book.free_list_head, 0);
    assert_eq!(book.nodes.len(), 64);
    assert!(book.get_best_price_order().is_none());
}

#[test]
fn get_node_sentinel_is_none() {
    let book = OrderBook::initialize(4, true);
    assert!(book.get_node(SENTINEL).is_none());
    assert!(book.get_node(0).is_some());
}

#[test]
fn bids_sort_by_price_descending_then_id() {
    let mut book = OrderBook::initialize(8, true);
    book.add_order(order(1, 1, 100, 5)).unwrap();
    book.add_order(order(2, 2, 300, 5)).unwrap();
    book.add_order(order(3, 3, 200, 5)).unwrap();
    book.add_order(order(4, 4, 300, 5)).unwrap();
    book.add_order(order(5, 5, 100, 5)).unwrap();
    let seen = walk(&book);
    let ids: Vec<u64> = seen.iter().map(|o| o.order_id).collect();
    assert_eq!(ids, vec![2, 4, 3, 1, 5]);
    for w in seen.windows(2) {
        assert!(w[0].price >= w[1].price);
        if w[0].price == w[1].price {
            assert!(w[0].order_id < w[1].order_id);
        }
    }
}

#[test]
fn asks_sort_by_price_ascending_then_id() {
    let mut book = OrderBook::initialize(8, false);
    book.add_order(order(1, 1, 300, 5)).unwrap();
    book.add_order(order(2, 2, 100, 5)).unwrap();
    book.add_order(order(3, 3, 200, 5)).unwrap();
    book.add_order(order(4, 4, 100, 5)).unwrap();
    let seen = walk(&book);
    let ids: Vec<u64> = seen.iter().map(|o| o.order_id).collect();
    assert_eq!(ids, vec![2, 4, 3, 1]);
    for w in seen.windows(2) {
        assert!(w[0].price <= w[1].price);
        if w[0].price == w[1].price {
            assert!(w[0].order_id < w[1].order_id);
        }
    }
}

#[test]
fn equal_price_earlier_id_wins_head() {
    let mut book = OrderBook::initialize(64, true);
    book.add_order(order(1, 1, 100, 10)).unwrap();
    book.add_order(order(2, 2, 100, 5)).unwrap();
    let best = book.get_best_price_order().unwrap();
    assert_eq!(best.order_id, 1);
}

#[test]
fn full_book_rejects_and_is_unchanged() {
    let mut book = OrderBook::initialize(2, true);
    book.add_order(order(1, 1, 100, 1)).unwrap();
    book.add_order(order(2, 2, 200, 1)).unwrap();
    let before = walk(&book);
    let r = book.add_order(order(3, 3, 300, 1));
    assert_eq!(r, Err(ErrorCode::OrderBookFull));
    assert_eq!(book.count, 2);
    assert_eq!(walk(&book), before);
}

#[test]
fn fill_to_capacity_and_drain() {
    let mut book = OrderBook::initialize(64, false);
    for i in 0..64u64 {
        book.add_order(order(i, i + 1, 1000 - i, 1)).unwrap();
    }
    assert_eq!(book.count, 64);
    assert_eq!(book.add_order(order(99, 100, 5, 1)), Err(ErrorCode::OrderBookFull));
    // Drain from the best end; prices must come out ascending for asks.
    let mut last_price = 0;
    for _ in 0..64 {
        let best = book.get_best_price_order().unwrap();
        assert!(best.price >= last_price);
        last_price = best.price;
        let (idx, _) = book.find_order_by_id(best.order_id).unwrap();
        book.remove_order(idx).unwrap();
    }
    assert_eq!(book.count, 0);
    assert!(book.get_best_price_order().is_none());
}

#[test]
fn remove_middle_relinks_neighbours() {
    let mut book = OrderBook::initialize(8, true);
    book.add_order(order(1, 1, 300, 1)).unwrap();
    book.add_order(order(2, 2, 200, 1)).unwrap();
    book.add_order(order(3, 3, 100, 1)).unwrap();
    let (idx, found) = book.find_order_by_id(2).unwrap();
    assert_eq!(found.price, 200);
    book.remove_order(idx).unwrap();
    let ids: Vec<u64> = walk(&book).iter().map(|o| o.order_id).collect();
    assert_eq!(ids, vec![1, 3]);
    assert_eq!(book.count, 2);
    assert!(book.find_order_by_id(2).is_none());
}

#[test]
fn removed_slot_is_reused() {
    let mut book = OrderBook::initialize(2, true);
    book.add_order(order(1, 1, 100, 1)).unwrap();
    book.add_order(order(2, 2, 200, 1)).unwrap();
    let (idx, _) = book.find_order_by_id(1).unwrap();
    book.remove_order(idx).unwrap();
    assert_eq!(book.count, 1);
    book.add_order(order(3, 3, 300, 1)).unwrap();
    assert_eq!(book.count, 2);
    let ids: Vec<u64> = walk(&book).iter().map(|o| o.order_id).collect();
    assert_eq!(ids, vec![3, 2]);
}

#[test]
fn find_order_by_id_misses_unknown() {
    let mut book = OrderBook::initialize(8, false);
    book.add_order(order(1, 7, 50, 2)).unwrap();
    assert!(book.find_order_by_id(8).is_none());
    let (_, found) = book.find_order_by_id(7).unwrap();
    assert_eq!(found.owner_account, 1);
    assert_eq!(found.base_qty, 2);
}
