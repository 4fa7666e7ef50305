use payback::debt::{BalancingError, Debt};
use payback::transactions::{pay_credited, pay_debted, Transaction};

fn lettered(values: &[i32]) -> Vec<Debt> {
    values
        .iter()
        .enumerate()
        .map(|(i, &value)| Debt {
            name: (('a' as u8 + i as u8) as char).to_string(),
            value,
        })
        .collect()
}

fn tx(payer: &str, payee: &str, value: i32) -> Transaction {
    Transaction {
        payer: String::from(payer),
        payee: String::from(payee),
        value,
    }
}

#[test]
fn test_pay_credited() {
    let debts = lettered(&[-6, -1, 3, 4]);
    let partition: Vec<_> = debts.iter().collect();
    let transactions = pay_credited(&partition).unwrap();
    assert_eq!(
        transactions,
        [
            Transaction {
                payer: String::from("d"),
                payee: String::from("a"),
                value: 4,
            },
            Transaction {
                payer: String::from("c"),
                payee: String::from("a"),
                value: 2,
            },
            Transaction {
                payer: String::from("c"),
                payee: String::from("b"),
                value: 1,
            },
        ]
    );
}

#[test]
fn test_pay_debted() {
    let debts = lettered(&[4000, 2000, 1090, 1000, -1080, -1340, -2410, -3260]);
    let partition: Vec<_> = debts.iter().collect();
    let transactions = pay_debted(&partition).unwrap();
    assert_eq!(
        transactions,
        [
            tx("a", "h", 4000),
            tx("b", "g", 2000),
            tx("c", "f", 1090),
            tx("d", "e", 1000),
            tx("h", "g", 740),
            tx("g", "f", 330),
            tx("f", "e", 80),
        ]
    )
}

#[test]
fn pay_refuses_a_non_zero_group() {
    let debts = lettered(&[4, -1]);
    let partition: Vec<_> = debts.iter().collect();
    assert_eq!(pay_credited(&partition), Err(BalancingError::NonZeroGroup));
    assert_eq!(pay_debted(&partition), Err(BalancingError::NonZeroGroup));
}

#[test]
fn pay_on_empty_and_settled_groups() {
    let none: Vec<&Debt> = vec![];
    assert_eq!(pay_credited(&none), Ok(vec![]));
    assert_eq!(pay_debted(&none), Ok(vec![]));
    let debts = lettered(&[0, 0]);
    let partition: Vec<_> = debts.iter().collect();
    assert_eq!(pay_credited(&partition), Ok(vec![]));
    assert_eq!(pay_debted(&partition), Ok(vec![]));
}

#[test]
fn pay_credited_nets_each_name() {
    let debts = lettered(&[-5, 2, -4, 7, 0, 3, -3]);
    let partition: Vec<_> = debts.iter().collect();
    for transactions in [
        pay_credited(&partition).unwrap(),
        pay_debted(&partition).unwrap(),
    ] {
        assert!(transactions.len() < debts.len());
        for debt in &debts {
            let paid: i32 = transactions
                .iter()
                .map(|t| {
                    (if t.payer == debt.name { t.value } else { 0 })
                        - (if t.payee == debt.name { t.value } else { 0 })
                })
                .sum();
            assert_eq!(paid, debt.value);
            assert!(transactions.iter().all(|t| t.value > 0));
        }
    }
}

#[test]
fn pay_credited_puts_a_creditor_remainder_before_equal_amounts() {
    // After d pays a 4, a still wants 2 and goes in front of b, who also
    // wants 2, so c pays a first.
    let debts = lettered(&[-6, -2, 4, 4]);
    let partition: Vec<_> = debts.iter().collect();
    assert_eq!(
        pay_credited(&partition).unwrap(),
        [tx("d", "a", 4), tx("c", "a", 2), tx("c", "b", 2)]
    );
}

#[test]
fn pay_debted_lets_an_overpaid_creditor_pay_on() {
    let debts = lettered(&[-1, 5, -4]);
    let partition: Vec<_> = debts.iter().collect();
    assert_eq!(
        pay_debted(&partition).unwrap(),
        [tx("b", "c", 5), tx("c", "a", 1)]
    );
}
