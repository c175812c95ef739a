use double_auction::book::{Order, OrderQueue};

#[test]
fn queue_starts_empty() {
    let mut queue = OrderQueue::new();
    assert_eq!(queue.len(), 0);
    assert_eq!(queue.peek(), None);
    assert_eq!(queue.pop(), None);
}

#[test]
fn queue_yields_the_highest_bid_first() {
    let mut queue = OrderQueue::new();
    let bids = [5, -3, 9, 0, 7, 7, -8, 2, 9, 1];
    for (agent, bid) in bids.iter().enumerate() {
        queue.push(Order { bid: *bid, agent });
    }
    assert_eq!(queue.len(), 10);
    assert_eq!(queue.peek(), Some(Order { bid: 9, agent: 2 }));
    let mut out = Vec::new();
    while let Some(order) = queue.pop() {
        out.push((order.bid, order.agent));
    }
    assert_eq!(
        out,
        vec![
            (9, 2),
            (9, 8),
            (7, 4),
            (7, 5),
            (5, 0),
            (2, 7),
            (1, 9),
            (0, 3),
            (-3, 1),
            (-8, 6)
        ]
    );
    assert_eq!(queue.len(), 0);
}

#[test]
fn equal_bids_leave_in_order_of_place() {
    let mut queue = OrderQueue::new();
    for agent in [4usize, 1, 3, 0, 2] {
        queue.push(Order { bid: 10, agent });
    }
    for agent in 0..5usize {
        assert_eq!(queue.pop(), Some(Order { bid: 10, agent }));
    }
}

#[test]
fn beats_compares_bid_and_then_place() {
    let low = Order { bid: 1, agent: 0 };
    let high = Order { bid: 2, agent: 5 };
    let late = Order { bid: 2, agent: 6 };
    assert!(high.beats(&low));
    assert!(!low.beats(&high));
    assert!(high.beats(&late));
    assert!(!late.beats(&high));
    assert!(!high.beats(&high));
}

#[test]
fn queue_interleaves_pushes_and_pops() {
    let mut queue = OrderQueue::new();
    let mut model: Vec<(i64, usize)> = Vec::new();
    let mut seed: u64 = 12345;
    for step in 0..500usize {
        seed = seed.wrapping_mul(6364136223846793005).wrapping_add(1442695040888963407);
        let roll = (seed >> 33) % 3;
        if roll < 2 {
            let bid = ((seed >> 40) % 50) as i64 - 25;
            queue.push(Order { bid, agent: step });
            model.push((bid, step));
        } else {
            model.sort_by_key(|entry| (-entry.0, entry.1));
            let expect = if model.is_empty() {
                None
            } else {
                let (bid, agent) = model.remove(0);
                Some(Order { bid, agent })
            };
            assert_eq!(queue.pop(), expect);
        }
        assert_eq!(queue.len(), model.len());
    }
}
