use order_matcher::matcher::{match_trades, match_trades2};
use order_matcher::order::{
    Order,
    OrderType::{self, Buy, Sell},
    Trade,
};

#[test]
fn test_simple() {
    let orders1 = [
        Order {
            id: 0,
            order_type: OrderType::Sell,
            price: 5000,
            quantity: 100,
        },
        Order {
            id: 1,
            order_type: OrderType::Buy,
            price: 6000,
            quantity: 50,
        },
    ];
    let (o, r) = match_trades(&orders1.into_iter().collect());
    let expected: Vec<Trade> = [Trade {
        buy_id: 1,
        sell_id: 0,
        price: 5000,
        quantity_traded: 50,
    }]
    .into_iter()
    .collect();
    let expected_order: Vec<Order> = [Order {
        id: 0,
        order_type: Sell,
        price: 5000,
        quantity: 50,
    }]
    .into_iter()
    .collect();
    assert_eq!(expected, r, "testing trade output");
    assert_eq!(expected_order, o, "testing trade output")
}

#[test]
fn test_simple2() {
    let orders1 = [
        Order {
            id: 1,
            order_type: OrderType::Sell,
            price: 5001,
            quantity: 100,
        },
        Order {
            id: 2,
            order_type: OrderType::Sell,
            price: 5000,
            quantity: 25,
        },
        Order {
            id: 3,
            order_type: OrderType::Buy,
            price: 6000,
            quantity: 50,
        },
    ];
    let (o, r) = match_trades(&orders1.into_iter().collect());
    let expected: Vec<Trade> = [
        Trade {
            buy_id: 3,
            sell_id: 2,
            price: 5000,
            quantity_traded: 25,
        },
        Trade {
            buy_id: 3,
            sell_id: 1,
            price: 5001,
            quantity_traded: 25,
        },
    ]
    .into_iter()
    .collect();
    let expected_order: Vec<Order> = [Order {
        id: 1,
        order_type: Sell,
        price: 5001,
        quantity: 75,
    }]
    .into_iter()
    .collect();
    assert_eq!(r, expected);
    assert_eq!(o, expected_order)
}

#[test]
fn test_simple3() {
    let orders1 = [
        Order {
            id: 1,
            order_type: OrderType::Sell,
            price: 5000,
            quantity: 75,
        },
        Order {
            id: 2,
            order_type: OrderType::Buy,
            price: 6000,
            quantity: 50,
        },
        Order {
            id: 3,
            order_type: OrderType::Buy,
            price: 6000,
            quantity: 50,
        },
    ];
    let (o, r) = match_trades(&orders1.into_iter().collect());
    let expected: Vec<Trade> = [
        Trade {
            buy_id: 2,
            sell_id: 1,
            price: 5000,
            quantity_traded: 50,
        },
        Trade {
            buy_id: 3,
            sell_id: 1,
            price: 5000,
            quantity_traded: 25,
        },
    ]
    .into_iter()
    .collect();
    let expected_order: Vec<Order> = [Order {
        id: 3,
        order_type: Buy,
        price: 6000,
        quantity: 25,
    }]
    .into_iter()
    .collect();
    assert_eq!(r, expected);
    assert_eq!(o, expected_order)
}

#[test]
fn both_engines_agree_on_a_mixed_book() {
    let book = vec![
        Order { id: 10, order_type: Sell, price: 105, quantity: 7 },
        Order { id: 11, order_type: Buy, price: 99, quantity: 3 },
        Order { id: 12, order_type: Sell, price: 100, quantity: 4 },
        Order { id: 13, order_type: Buy, price: 107, quantity: 9 },
        Order { id: 14, order_type: Sell, price: 100, quantity: 2 },
        Order { id: 15, order_type: Buy, price: 100, quantity: 5 },
    ];
    let first = match_trades(&book);
    let second = match_trades2(&book);
    assert_eq!(first, second);
    let expected_trades = vec![
        Trade { buy_id: 13, sell_id: 12, price: 100, quantity_traded: 4 },
        Trade { buy_id: 13, sell_id: 14, price: 100, quantity_traded: 2 },
        Trade { buy_id: 13, sell_id: 10, price: 105, quantity_traded: 3 },
    ];
    let expected_book = vec![
        Order { id: 10, order_type: Sell, price: 105, quantity: 4 },
        Order { id: 11, order_type: Buy, price: 99, quantity: 3 },
        Order { id: 15, order_type: Buy, price: 100, quantity: 5 },
    ];
    assert_eq!(first.1, expected_trades);
    assert_eq!(first.0, expected_book);
}
