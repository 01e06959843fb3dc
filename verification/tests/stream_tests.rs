use order_matcher::matcher::{best_buy, best_sell, find_pair, match_trades, match_trades2};
use order_matcher::order::{
    Order,
    OrderType::{self, Buy, Sell},
    Trade,
};
use order_matcher::stream::{process_order, process_orders};

#[test]
fn test_simple_processor() {
    let orders1 = [
        Order {
            id: 0,
            order_type: OrderType::Sell,
            price: 5000,
            quantity: 100,
        },
        Order {
            id: 1,
            order_type: OrderType::Buy,
            price: 6000,
            quantity: 50,
        },
    ];
    let trades = process_orders(&orders1.into_iter().collect());
    let t1: Trade = Trade {
        buy_id: 1,
        sell_id: 0,
        price: 5000,
        quantity_traded: 50,
    };

    assert_eq!(vec![t1], trades);
}

#[test]
fn test_simple_processor2() {
    let orders1 = [
        Order {
            id: 1,
            order_type: OrderType::Sell,
            price: 5001,
            quantity: 100,
        },
        Order {
            id: 2,
            order_type: OrderType::Sell,
            price: 5000,
            quantity: 25,
        },
        Order {
            id: 3,
            order_type: OrderType::Buy,
            price: 6000,
            quantity: 50,
        },
    ];
    let made = process_orders(&orders1.into_iter().collect());
    let trades: Vec<Trade> = [
        Trade {
            buy_id: 3,
            sell_id: 2,
            price: 5000,
            quantity_traded: 25,
        },
        Trade {
            buy_id: 3,
            sell_id: 1,
            price: 5001,
            quantity_traded: 25,
        },
    ]
    .into_iter()
    .collect();

    assert_eq!(trades, made);
}

#[test]
fn test_simple_processor3() {
    let orders1 = [
        Order {
            id: 1,
            order_type: OrderType::Sell,
            price: 5000,
            quantity: 75,
        },
        Order {
            id: 2,
            order_type: OrderType::Buy,
            price: 6000,
            quantity: 50,
        },
        Order {
            id: 3,
            order_type: OrderType::Buy,
            price: 6000,
            quantity: 50,
        },
    ];
    let made = process_orders(&orders1.into_iter().collect());
    let t1: Vec<Trade> = [
        Trade {
            buy_id: 2,
            sell_id: 1,
            price: 5000,
            quantity_traded: 50,
        },
        Trade {
            buy_id: 3,
            sell_id: 1,
            price: 5000,
            quantity_traded: 25,
        },
    ]
    .into_iter()
    .collect();

    assert_eq!(t1, made);
}

fn sell(id: usize, price: u32, quantity: u32) -> Order {
    Order { id, order_type: Sell, price, quantity }
}

fn buy(id: usize, price: u32, quantity: u32) -> Order {
    Order { id, order_type: Buy, price, quantity }
}

fn total(book: &[Order]) -> u64 {
    book.iter().map(|order| order.quantity as u64).sum()
}

fn traded(trades: &[Trade]) -> u64 {
    trades.iter().map(|trade| trade.quantity_traded as u64).sum()
}

#[test]
fn the_resting_set_after_each_arrival() {
    let mut resting: Vec<Order> = Vec::new();
    assert_eq!(process_order(&mut resting, sell(0, 5000, 100)), vec![]);
    assert_eq!(resting, vec![sell(0, 5000, 100)]);
    assert_eq!(
        process_order(&mut resting, buy(1, 6000, 50)),
        vec![Trade { buy_id: 1, sell_id: 0, price: 5000, quantity_traded: 50 }]
    );
    assert_eq!(resting, vec![sell(0, 5000, 50)]);

    let mut resting: Vec<Order> = Vec::new();
    process_order(&mut resting, sell(1, 5001, 100));
    process_order(&mut resting, sell(2, 5000, 25));
    process_order(&mut resting, buy(3, 6000, 50));
    assert_eq!(resting, vec![sell(1, 5001, 75)]);

    let mut resting: Vec<Order> = Vec::new();
    process_order(&mut resting, sell(1, 5000, 75));
    process_order(&mut resting, buy(2, 6000, 50));
    assert_eq!(resting, vec![sell(1, 5000, 25)]);
    process_order(&mut resting, buy(3, 6000, 50));
    assert_eq!(resting, vec![buy(3, 6000, 25)]);
}

// Matching runs when a buy arrives and at no other time. A sell that
// arrives while a buy that would pay its price rests makes no trade: the two
// stay side by side in the book until the next buy arrives, whatever that
// buy's own price is. This is the intended trigger policy.
#[test]
fn a_sell_waits_for_the_next_buy() {
    let mut resting: Vec<Order> = Vec::new();
    assert_eq!(process_order(&mut resting, buy(1, 6000, 50)), vec![]);
    assert_eq!(process_order(&mut resting, sell(2, 5000, 30)), vec![]);
    assert_eq!(resting, vec![buy(1, 6000, 50), sell(2, 5000, 30)]);
    assert_eq!(process_order(&mut resting, sell(3, 5500, 10)), vec![]);
    assert_eq!(resting.len(), 3);
    assert_eq!(
        process_order(&mut resting, buy(4, 1, 1)),
        vec![
            Trade { buy_id: 1, sell_id: 2, price: 5000, quantity_traded: 30 },
            Trade { buy_id: 1, sell_id: 3, price: 5500, quantity_traded: 10 },
        ]
    );
    assert_eq!(resting, vec![buy(1, 6000, 10), buy(4, 1, 1)]);

    assert_eq!(process_orders(&vec![buy(1, 6000, 50), sell(2, 5000, 30)]), vec![]);
}

#[test]
fn of_two_sells_at_the_lowest_price_the_earlier_trades() {
    let book = vec![sell(1, 5000, 10), sell(2, 5000, 10), buy(3, 5000, 10)];
    let (left, trades) = match_trades(&book);
    assert_eq!(trades, vec![Trade { buy_id: 3, sell_id: 1, price: 5000, quantity_traded: 10 }]);
    assert_eq!(left, vec![sell(2, 5000, 10)]);
    assert_eq!(match_trades2(&book), (left, trades));
    assert_eq!(best_sell(&book), Some(0));

    let by_id = vec![sell(2, 5000, 10), sell(1, 5000, 10), buy(3, 5000, 10)];
    assert_eq!(best_sell(&by_id), Some(1));
    assert_eq!(match_trades(&by_id).1[0].sell_id, 1);
}

#[test]
fn of_the_buys_that_cross_the_lowest_id_trades() {
    let book = vec![buy(4, 90, 5), buy(7, 200, 5), buy(5, 100, 5), buy(6, 300, 5), sell(9, 100, 5)];
    assert_eq!(best_buy(&book, 100), Some(2));
    assert_eq!(best_buy(&book, 301), None);
    assert_eq!(find_pair(&book), Some((4, 2)));
    let (left, trades) = match_trades(&book);
    assert_eq!(trades, vec![Trade { buy_id: 5, sell_id: 9, price: 100, quantity_traded: 5 }]);
    assert_eq!(left, vec![buy(4, 90, 5), buy(7, 200, 5), buy(6, 300, 5)]);
}

#[test]
fn the_cheapest_sell_trades_first_whatever_its_id() {
    let book = vec![sell(1, 101, 5), sell(2, 100, 5), sell(3, 99, 5), buy(4, 100, 15)];
    let (left, trades) = match_trades(&book);
    assert_eq!(
        trades,
        vec![
            Trade { buy_id: 4, sell_id: 3, price: 99, quantity_traded: 5 },
            Trade { buy_id: 4, sell_id: 2, price: 100, quantity_traded: 5 },
        ]
    );
    assert_eq!(left, vec![sell(1, 101, 5), buy(4, 100, 5)]);
}

#[test]
fn nothing_trades_where_no_buy_pays_a_sells_price() {
    let books = vec![
        vec![],
        vec![sell(1, 10, 1)],
        vec![buy(1, 10, 1)],
        vec![sell(1, 10, 1), sell(2, 11, 4)],
        vec![buy(1, 10, 1), buy(2, 11, 4)],
        vec![sell(1, 10, 1), buy(2, 9, 4), sell(3, 12, 1), buy(4, 1, 1)],
    ];
    for book in books {
        assert_eq!(find_pair(&book), None);
        assert_eq!(match_trades(&book), (book.clone(), vec![]));
        assert_eq!(match_trades2(&book), (book.clone(), vec![]));
    }
}

#[test]
fn a_trade_is_made_at_the_sells_price() {
    let book = vec![sell(1, 50, 1), sell(2, 60, 1), buy(3, 55, 1)];
    let (left, trades) = match_trades(&book);
    assert_eq!(trades, vec![Trade { buy_id: 3, sell_id: 1, price: 50, quantity_traded: 1 }]);
    assert_eq!(left, vec![sell(2, 60, 1)]);
}

#[test]
fn matching_again_changes_nothing() {
    let book = vec![
        sell(1, 100, 8),
        buy(2, 120, 3),
        sell(3, 90, 2),
        buy(4, 100, 9),
        sell(5, 130, 1),
        buy(6, 95, 4),
    ];
    let (left, trades) = match_trades(&book);
    assert!(!trades.is_empty());
    assert_eq!(find_pair(&left), None);
    assert_eq!(match_trades(&left), (left.clone(), vec![]));
    assert_eq!(match_trades2(&left), (left.clone(), vec![]));
}

#[test]
fn what_rests_goes_down_by_twice_what_trades() {
    let book = vec![
        sell(1, 100, 8),
        buy(2, 120, 3),
        sell(3, 90, 2),
        buy(4, 100, 9),
        sell(5, 130, 1),
        buy(6, 95, 4),
    ];
    let (left, trades) = match_trades(&book);
    assert_eq!(
        trades,
        vec![
            Trade { buy_id: 2, sell_id: 3, price: 90, quantity_traded: 2 },
            Trade { buy_id: 2, sell_id: 1, price: 100, quantity_traded: 1 },
            Trade { buy_id: 4, sell_id: 1, price: 100, quantity_traded: 7 },
        ]
    );
    assert_eq!(left, vec![buy(4, 100, 2), sell(5, 130, 1), buy(6, 95, 4)]);
    assert_eq!(total(&book), 27);
    assert_eq!(total(&left), 7);
    assert_eq!(traded(&trades), 10);
    assert_eq!(total(&book) - total(&left), 2 * traded(&trades));

    // One step at a time: a single crossing pair.
    let step = vec![sell(1, 10, 5), buy(2, 10, 3)];
    let (after, made) = match_trades2(&step);
    assert_eq!(made.len(), 1);
    assert_eq!(total(&step) - total(&after), 2 * made[0].quantity_traded as u64);
}

#[test]
fn equal_quantities_take_both_orders_off_the_book() {
    let book = vec![sell(1, 10, 5), buy(2, 10, 5)];
    assert_eq!(
        match_trades(&book),
        (vec![], vec![Trade { buy_id: 2, sell_id: 1, price: 10, quantity_traded: 5 }])
    );
    assert_eq!(match_trades2(&book), match_trades(&book));
}

#[test]
fn what_rests_keeps_its_arrival_order() {
    let mut book: Vec<Order> = Vec::new();
    for i in 0..300usize {
        book.push(sell(i, 1000 + (i as u32 * 7919) % 500, 1 + (i as u32 % 3)));
    }
    let (left, trades) = match_trades(&book);
    assert_eq!(trades, vec![]);
    assert_eq!(left, book);

    book.push(buy(300, 1100, 40));
    let (left, trades) = match_trades(&book);
    assert_eq!((left.clone(), trades.clone()), match_trades2(&book));
    assert_eq!(traded(&trades), 40);
    for pair in left.windows(2) {
        assert!(pair[0].id < pair[1].id);
    }
    for pair in trades.windows(2) {
        assert!(pair[0].price <= pair[1].price);
    }
}

#[test]
fn a_long_stream_gives_the_trades_of_each_buy_in_turn() {
    let orders = vec![
        sell(0, 10, 5),
        sell(1, 9, 5),
        buy(2, 9, 7),
        sell(3, 8, 1),
        buy(4, 10, 10),
        buy(5, 1, 1),
    ];
    assert_eq!(
        process_orders(&orders),
        vec![
            Trade { buy_id: 2, sell_id: 1, price: 9, quantity_traded: 5 },
            Trade { buy_id: 2, sell_id: 3, price: 8, quantity_traded: 1 },
            Trade { buy_id: 4, sell_id: 0, price: 10, quantity_traded: 5 },
        ]
    );
    assert_eq!(process_orders(&vec![]), vec![]);
}
