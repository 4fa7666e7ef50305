use payback::partitionings::longest_zero_sum_partitionings;

#[test]
fn test_longest_zero_sum_partitionings_single_result() {
    let length = 10;
    let set: Vec<_> = (0..length)
        .flat_map(|i| vec![2_i32.pow(i), -2_i32.pow(i)])
        .collect();
    let partitionings = longest_zero_sum_partitionings(&set);
    assert_eq!(partitionings.len(), 1);
    assert_eq!(partitionings[0].len(), length as usize);
}

#[test]
fn test_longest_zero_sum_partitionings_with_multiple_results() {
    let partitionings = longest_zero_sum_partitionings(&[-6, -2, -1, 2, 3, 4]);
    assert_eq!(partitionings.len(), 2);
    assert_eq!(partitionings[0].len(), 2);
    assert_eq!(partitionings[1].len(), 2);
}

#[test]
fn multiple_results_come_in_order() {
    let partitionings = longest_zero_sum_partitionings(&[-6, -2, -1, 2, 3, 4]);
    assert_eq!(
        partitionings,
        vec![
            vec![vec![1, 3], vec![0, 2, 4, 5]],
            vec![vec![0, 3, 5], vec![1, 2, 4]],
        ]
    );
}

#[test]
fn pairs_are_their_own_groups() {
    let set: Vec<i32> = (0..10).flat_map(|i| vec![2_i32.pow(i), -2_i32.pow(i)]).collect();
    let partitionings = longest_zero_sum_partitionings(&set);
    let expected: Vec<Vec<usize>> = (0..10).rev().map(|i| vec![2 * i, 2 * i + 1]).collect();
    assert_eq!(partitionings, vec![expected]);
}

#[test]
fn empty_set_has_one_empty_partitioning() {
    let partitionings = longest_zero_sum_partitionings(&[]);
    assert_eq!(partitionings, vec![Vec::<Vec<usize>>::new()]);
}

#[test]
fn non_zero_total_has_no_partitioning() {
    assert!(longest_zero_sum_partitionings(&[1, -1, 5]).is_empty());
    assert!(longest_zero_sum_partitionings(&[3]).is_empty());
}

#[test]
fn zero_balances_form_groups_of_their_own() {
    let partitionings = longest_zero_sum_partitionings(&[0, 4, 0, -4]);
    assert_eq!(partitionings, vec![vec![vec![2], vec![0], vec![1, 3]]]);
}

#[test]
fn a_set_with_no_smaller_zero_sum_group_is_one_group() {
    let partitionings = longest_zero_sum_partitionings(&[-3, 1, 2]);
    assert_eq!(partitionings, vec![vec![vec![0, 1, 2]]]);
}

#[test]
fn every_result_is_an_exact_cover_of_zero_sum_groups() {
    let set = [3, -1, -2, 4, -4, 1, -1];
    let partitionings = longest_zero_sum_partitionings(&set);
    assert!(!partitionings.is_empty());
    let longest = partitionings[0].len();
    for p in &partitionings {
        assert_eq!(p.len(), longest);
        let mut seen = vec![0; set.len()];
        for group in p {
            assert!(!group.is_empty());
            assert_eq!(group.iter().map(|&i| set[i]).sum::<i32>(), 0);
            for &i in group {
                seen[i] += 1;
            }
        }
        assert!(seen.iter().all(|&n| n == 1));
    }
}
