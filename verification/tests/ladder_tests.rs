use price_ladder::List;
use price_ladder::Order;

#[test]
fn test_search() {
    let mut l = List { orders: vec![(7, vec![(10, 20)]), (5, vec![(10, 20)])] };
    l.add((5, 5, 1));
    assert_eq!(
        l.orders,
        vec![(7, vec![(10, 20)]), (5, vec![(10, 20), (5, 1)])]
    );
    l.add((6, 10, 2));
    assert_eq!(
        l.orders,
        vec![
            (7, vec![(10, 20)]),
            (6, vec![(10, 2)]),
            (5, vec![(10, 20), (5, 1)]),
        ]
    );
    l.add((7, 20, 3));
    assert_eq!(
        l.orders,
        vec![
            (7, vec![(10, 20), (20, 3)]),
            (6, vec![(10, 2)]),
            (5, vec![(10, 20), (5, 1)]),
        ]
    );
    l.add((8, 30, 4));
    assert_eq!(
        l.orders,
        vec![
            (8, vec![(30, 4)]),
            (7, vec![(10, 20), (20, 3)]),
            (6, vec![(10, 2)]),
            (5, vec![(10, 20), (5, 1)]),
        ]
    );
}

#[test]
fn test_order_split_mid() {
    let v: Order = (5, 3);
    let mut left: u32 = 4;
    assert_eq!(List::order_split(v, &mut left), Ok(((4, 3), (1, 3))));
    assert_eq!(left, 0);
}

#[test]
fn test_order_split_full() {
    let v: Order = (5, 3);
    let mut left: u32 = 5;
    assert_eq!(List::order_split(v, &mut left), Err((5, 3)));
    assert_eq!(left, 0);
}

#[test]
fn test_order_split_part() {
    let v: Order = (5, 3);
    let mut left: u32 = 7;
    assert_eq!(List::order_split(v, &mut left), Err((5, 3)));
    assert_eq!(left, 2);
}

#[test]
fn test_orders_split() {
    let mut els: Vec<Order> = vec![(20, 1), (15, 2), (3, 4), (10, 3)];
    let mut left: u32 = 15;
    let v = List::orders_split(&mut els, &mut left);

    assert_eq!(v, vec![(10, 3), (3, 4), (2, 2)]);
    assert_eq!(els, vec![(20, 1), (13, 2)]);
    assert_eq!(left, 0);
}

#[test]
fn test_split() {
    let mut lst = List {
        orders: vec![
            (7, vec![(900, 30), (1000, 35)]),
            (6, vec![(700, 20), (800, 25)]),
            (5, vec![(500, 10), (600, 15)]),
        ],
    };

    assert_eq!(
        lst.split((6, 1400)).orders,
        vec![(6, vec![(300, 25)]), (5, vec![(600, 15), (500, 10)])]
    );
    assert_eq!(
        lst.orders,
        vec![
            (7, vec![(900, 30), (1000, 35)]),
            (6, vec![(700, 20), (500, 25)]),
        ]
    );
}

#[test]
fn test_empty_has_no_levels() {
    let l = List::empty();
    assert_eq!(l.orders, vec![]);
}

#[test]
fn test_from_keeps_levels() {
    let l = List::from(vec![(3, vec![(1, 9)])]);
    assert_eq!(l.orders, vec![(3, vec![(1, 9)])]);
}

#[test]
fn test_add_into_empty() {
    let mut l = List::empty();
    l.add((4, 8, 77));
    assert_eq!(l.orders, vec![(4, vec![(8, 77)])]);
}

#[test]
fn test_split_zero_size_leaves_ladder_unchanged() {
    let mut l = List {
        orders: vec![(9, vec![(10, 1)]), (2, vec![(20, 2)])],
    };
    let taken = l.split((9, 0));
    assert_eq!(taken.orders, vec![]);
    assert_eq!(l.orders, vec![(9, vec![(10, 1)]), (2, vec![(20, 2)])]);
}

#[test]
fn test_split_empty_ladder() {
    let mut l = List::empty();
    let taken = l.split((5, 100));
    assert_eq!(taken.orders, vec![]);
    assert_eq!(l.orders, vec![]);
}

#[test]
fn test_split_price_below_all_levels() {
    let mut l = List {
        orders: vec![(9, vec![(10, 1)]), (4, vec![(20, 2)])],
    };
    let taken = l.split((3, 100));
    assert_eq!(taken.orders, vec![]);
    assert_eq!(l.orders, vec![(9, vec![(10, 1)]), (4, vec![(20, 2)])]);
}

#[test]
fn test_split_stops_at_price_ceiling() {
    let mut l = List {
        orders: vec![(9, vec![(10, 1)]), (4, vec![(20, 2)])],
    };
    let taken = l.split((4, 100));
    assert_eq!(taken.orders, vec![(4, vec![(20, 2)])]);
    assert_eq!(l.orders, vec![(9, vec![(10, 1)])]);
}

#[test]
fn test_split_exact_level_boundary_keeps_next_level() {
    // The request runs out exactly as a level drains; the next level above
    // must stay in place untouched.
    let mut l = List {
        orders: vec![(7, vec![(5, 1)]), (5, vec![(5, 2)])],
    };
    let taken = l.split((7, 5));
    assert_eq!(taken.orders, vec![(5, vec![(5, 2)])]);
    assert_eq!(l.orders, vec![(7, vec![(5, 1)])]);
}

#[test]
fn test_split_drains_whole_ladder() {
    let mut l = List {
        orders: vec![(7, vec![(1, 1), (2, 2)]), (5, vec![(3, 3)])],
    };
    let taken = l.split((7, 100));
    assert_eq!(taken.orders, vec![(7, vec![(2, 2), (1, 1)]), (5, vec![(3, 3)])]);
    assert_eq!(l.orders, vec![]);
}

#[test]
fn test_split_conserves_quantity() {
    let mut l = List {
        orders: vec![
            (8, vec![(11, 1), (7, 2)]),
            (6, vec![(5, 3)]),
            (2, vec![(9, 4), (1, 5)]),
        ],
    };
    let mut before: u32 = 0;
    for lvl in &l.orders {
        for e in &lvl.1 {
            before += e.0;
        }
    }
    let taken = l.split((6, 12));
    let mut after: u32 = 0;
    for lvl in &l.orders {
        for e in &lvl.1 {
            after += e.0;
        }
    }
    let mut removed: u32 = 0;
    for lvl in &taken.orders {
        for e in &lvl.1 {
            removed += e.0;
        }
    }
    assert_eq!(after + removed, before);
    assert_eq!(removed, 12);
}

#[test]
fn test_orders_split_empty_queue() {
    let mut els: Vec<Order> = vec![];
    let mut left: u32 = 5;
    let v = List::orders_split(&mut els, &mut left);
    assert_eq!(v, vec![]);
    assert_eq!(els, vec![]);
    assert_eq!(left, 5);
}

#[test]
fn test_orders_split_zero_left() {
    let mut els: Vec<Order> = vec![(4, 1)];
    let mut left: u32 = 0;
    let v = List::orders_split(&mut els, &mut left);
    assert_eq!(v, vec![]);
    assert_eq!(els, vec![(4, 1)]);
    assert_eq!(left, 0);
}
