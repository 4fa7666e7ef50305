use payback::balancing::Transaction;
use payback::debt::Debt;
use payback::options::{compute_options, SettlementStrategy};

fn named(entries: &[(&str, i32)]) -> Vec<Debt> {
    entries
        .iter()
        .map(|&(name, value)| Debt {
            name: name.to_string(),
            value,
        })
        .collect()
}

#[test]
fn options_settle_each_group_in_turn() {
    let debts = named(&[("a", -6), ("b", -2), ("c", -1), ("d", 2), ("e", 3), ("f", 4)]);
    let refs: Vec<_> = debts.iter().collect();
    let options = compute_options(&refs, SettlementStrategy::ByDebtedAmountAsc);
    assert_eq!(
        options,
        vec![
            vec![
                Transaction::from("d", "b", 2),
                Transaction::from("f", "c", 4),
                Transaction::from("c", "a", 3),
                Transaction::from("e", "a", 3),
            ],
            vec![
                Transaction::from("f", "a", 4),
                Transaction::from("d", "a", 2),
                Transaction::from("e", "c", 3),
                Transaction::from("c", "b", 2),
            ],
        ]
    );
}

#[test]
fn options_with_credited_strategy() {
    let debts = named(&[("a", -6), ("b", -1), ("c", 3), ("d", 4)]);
    let refs: Vec<_> = debts.iter().collect();
    let options = compute_options(&refs, SettlementStrategy::ByCreditedAmountDesc);
    assert_eq!(
        options,
        vec![vec![
            Transaction::from("d", "a", 4),
            Transaction::from("c", "a", 2),
            Transaction::from("c", "b", 1),
        ]]
    );
}

#[test]
fn options_with_debted_strategy() {
    let debts = named(&[
        ("a", 4000),
        ("b", 2000),
        ("c", 1090),
        ("d", 1000),
        ("e", -1080),
        ("f", -1340),
        ("g", -2410),
        ("h", -3260),
    ]);
    let refs: Vec<_> = debts.iter().collect();
    let options = compute_options(&refs, SettlementStrategy::ByDebtedAmountDesc);
    assert_eq!(
        options,
        vec![vec![
            Transaction::from("a", "h", 4000),
            Transaction::from("b", "g", 2000),
            Transaction::from("c", "f", 1090),
            Transaction::from("d", "e", 1000),
            Transaction::from("h", "g", 740),
            Transaction::from("g", "f", 330),
            Transaction::from("f", "e", 80),
        ]]
    );
}

#[test]
fn options_with_spoke_hub() {
    let debts = named(&[("a", 5), ("b", -5), ("c", 2), ("d", -2)]);
    let refs: Vec<_> = debts.iter().collect();
    // The hub is d: the group {c, d} goes through d, the group {a, b},
    // which does not hold d, through its first member.
    let options = compute_options(&refs, SettlementStrategy::SpokeHub(3));
    assert_eq!(
        options,
        vec![vec![
            Transaction::from("c", "d", 2),
            Transaction::from("a", "b", 5),
        ]]
    );
}

#[test]
fn options_for_an_unsettled_set_are_none() {
    let debts = named(&[("a", 5), ("b", -4)]);
    let refs: Vec<_> = debts.iter().collect();
    assert!(compute_options(&refs, SettlementStrategy::ByDebtedAmountAsc).is_empty());
}

#[test]
fn options_are_the_same_on_a_second_call() {
    let debts = named(&[("a", -6), ("b", -2), ("c", -1), ("d", 2), ("e", 3), ("f", 4)]);
    let refs: Vec<_> = debts.iter().collect();
    for strategy in [
        SettlementStrategy::ByCreditedAmountDesc,
        SettlementStrategy::ByDebtedAmountDesc,
        SettlementStrategy::ByDebtedAmountAsc,
        SettlementStrategy::SpokeHub(0),
    ] {
        assert_eq!(
            compute_options(&refs, strategy),
            compute_options(&refs, strategy)
        );
    }
}

#[test]
fn options_for_no_balances_are_one_empty_option() {
    let refs: Vec<&Debt> = vec![];
    assert_eq!(
        compute_options(&refs, SettlementStrategy::ByDebtedAmountAsc),
        vec![Vec::<Transaction>::new()]
    );
}
