use payback::balancing::{
    balance_by_debted_amounts_asc, balance_by_debted_amounts_desc, balance_by_spoke_hub,
    Transaction,
};
use payback::debt::{BalancingError, Debt};

fn lettered(values: &[i32]) -> Vec<Debt> {
    values
        .iter()
        .enumerate()
        .map(|(i, &value)| Debt {
            name: (('a' as u8 + i as u8) as char).to_string(),
            value,
        })
        .collect()
}

#[test]
fn test_balance_by_debted_amounts_desc() {
    let debts = lettered(&[4000, 2000, 1090, 1000, -1080, -1340, -2410, -3260]);
    let partition: Vec<_> = debts.iter().collect();
    let transactions = balance_by_debted_amounts_desc(&partition).unwrap();
    assert_eq!(
        transactions,
        [
            Transaction::from("a", "h", 4000),
            Transaction::from("b", "g", 2000),
            Transaction::from("c", "f", 1090),
            Transaction::from("d", "e", 1000),
            Transaction::from("h", "g", 740),
            Transaction::from("g", "f", 330),
            Transaction::from("f", "e", 80),
        ]
    )
}

#[test]
fn test_balance_by_debted_amounts_asc() {
    let debts = lettered(&[4000, 2000, 1090, 1000, -1080, -1340, -2410, -3260]);
    let partition: Vec<_> = debts.iter().collect();
    let transactions = balance_by_debted_amounts_asc(&partition).unwrap();
    assert_eq!(
        transactions,
        [
            Transaction::from("a", "e", 4000),
            Transaction::from("e", "f", 2920),
            Transaction::from("b", "g", 2000),
            Transaction::from("f", "g", 1580),
            Transaction::from("g", "h", 1170),
            Transaction::from("c", "h", 1090),
            Transaction::from("d", "h", 1000),
        ]
    )
}

#[test]
fn test_balance_by_spoke_hub() {
    let debts = lettered(&[4000, 2000, 1090, 1000, -1080, -1340, -2410, -3260]);
    let partition: Vec<_> = debts.iter().collect();
    let transactions = balance_by_spoke_hub(&partition, 6).unwrap();
    assert_eq!(
        transactions,
        [
            Transaction::from("a", "g", 4000),
            Transaction::from("b", "g", 2000),
            Transaction::from("c", "g", 1090),
            Transaction::from("d", "g", 1000),
            Transaction::from("g", "e", 1080),
            Transaction::from("g", "f", 1340),
            Transaction::from("g", "h", 3260),
        ]
    )
}

#[test]
fn transaction_from_copies_its_arguments() {
    let t = Transaction::from("x", "y", 12);
    assert_eq!(t.source, "x");
    assert_eq!(t.destination, "y");
    assert_eq!(t.value, 12);
}

#[test]
fn non_zero_group_is_refused_by_every_variant() {
    let debts = lettered(&[5, -3]);
    let partition: Vec<_> = debts.iter().collect();
    assert_eq!(
        balance_by_debted_amounts_desc(&partition),
        Err(BalancingError::NonZeroGroup)
    );
    assert_eq!(
        balance_by_debted_amounts_asc(&partition),
        Err(BalancingError::NonZeroGroup)
    );
    assert_eq!(
        balance_by_spoke_hub(&partition, 0),
        Err(BalancingError::NonZeroGroup)
    );
}

#[test]
fn empty_group_needs_no_transaction() {
    let partition: Vec<&Debt> = vec![];
    assert_eq!(balance_by_debted_amounts_desc(&partition), Ok(vec![]));
    assert_eq!(balance_by_debted_amounts_asc(&partition), Ok(vec![]));
}

#[test]
fn settled_balances_take_no_part() {
    let debts = lettered(&[0, 7, 0, -7, 0]);
    let partition: Vec<_> = debts.iter().collect();
    assert_eq!(
        balance_by_debted_amounts_desc(&partition).unwrap(),
        [Transaction::from("b", "d", 7)]
    );
    assert_eq!(
        balance_by_debted_amounts_asc(&partition).unwrap(),
        [Transaction::from("b", "d", 7)]
    );
}

#[test]
fn spoke_hub_pays_once_per_unsettled_balance_but_the_hub() {
    // Five entries, two of them zero: 5 - 2 - 1 transactions.
    let debts = lettered(&[3, 0, -1, 0, -2]);
    let partition: Vec<_> = debts.iter().collect();
    let transactions = balance_by_spoke_hub(&partition, 0).unwrap();
    assert_eq!(
        transactions,
        [Transaction::from("a", "c", 1), Transaction::from("a", "e", 2)]
    );
}

#[test]
fn spoke_hub_with_a_settled_hub_routes_everyone() {
    let debts = lettered(&[0, 5, -5]);
    let partition: Vec<_> = debts.iter().collect();
    let transactions = balance_by_spoke_hub(&partition, 0).unwrap();
    assert_eq!(
        transactions,
        [Transaction::from("b", "a", 5), Transaction::from("a", "c", 5)]
    );
}

#[test]
fn extreme_amounts_are_paid_in_full() {
    let debts = lettered(&[i32::MIN, i32::MAX, 1]);
    let partition: Vec<_> = debts.iter().collect();
    assert_eq!(
        balance_by_spoke_hub(&partition, 1).unwrap(),
        [
            Transaction::from("b", "a", 2147483648),
            Transaction::from("c", "b", 1)
        ]
    );
    assert_eq!(
        balance_by_debted_amounts_desc(&partition).unwrap(),
        [
            Transaction::from("b", "a", 2147483647),
            Transaction::from("c", "a", 1)
        ]
    );
}

#[test]
fn equal_creditors_are_paid_in_order_of_the_group() {
    // Ties keep the order of the group: the later of two equal creditors is
    // the last of the sorted creditors, so it is paid first.
    let debts = lettered(&[-3, -3, 6]);
    let partition: Vec<_> = debts.iter().collect();
    assert_eq!(
        balance_by_debted_amounts_asc(&partition).unwrap(),
        [Transaction::from("c", "b", 6), Transaction::from("b", "a", 3)]
    );
}

#[test]
fn every_variant_nets_each_name_in_fewer_transactions_than_balances() {
    let debts = lettered(&[-5, 2, -4, 7, 0, 3, -3]);
    let partition: Vec<_> = debts.iter().collect();
    for transactions in [
        balance_by_debted_amounts_desc(&partition).unwrap(),
        balance_by_debted_amounts_asc(&partition).unwrap(),
        balance_by_spoke_hub(&partition, 3).unwrap(),
    ] {
        assert!(transactions.len() < debts.len());
        assert!(transactions.iter().all(|t| t.value > 0));
        for debt in &debts {
            let paid: i64 = transactions
                .iter()
                .map(|t| {
                    (if t.source == debt.name { t.value as i64 } else { 0 })
                        - (if t.destination == debt.name { t.value as i64 } else { 0 })
                })
                .sum();
            assert_eq!(paid, debt.value as i64);
        }
    }
}

#[test]
fn shared_names_net_together() {
    let debts = vec![
        Debt { name: "x".to_string(), value: 4 },
        Debt { name: "y".to_string(), value: -6 },
        Debt { name: "x".to_string(), value: 2 },
    ];
    let partition: Vec<_> = debts.iter().collect();
    assert_eq!(
        balance_by_debted_amounts_desc(&partition).unwrap(),
        [Transaction::from("x", "y", 4), Transaction::from("x", "y", 2)]
    );
}
