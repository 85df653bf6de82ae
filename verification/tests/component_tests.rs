use simple_frequent_itemsets::combination_is_in_itemset;
use simple_frequent_itemsets::extract_itemsets;
use simple_frequent_itemsets::jagged_array_to_itemsetlist;
use simple_frequent_itemsets::prune;
use simple_frequent_itemsets::solve_combinations;
use simple_frequent_itemsets::solve_supports;
use simple_frequent_itemsets::solve_unique_itemset;
use simple_frequent_itemsets::ItemSet;

#[test]
fn itemset_deduplicates_and_orders_canonically() {
    let a = ItemSet::from_vec(&vec![3, 1, 2, 3, 1]);
    assert_eq!(a.items, vec![1, 2, 3]);
    assert_eq!(a.len(), 3);
    assert!(a.contains(2));
    assert!(!a.contains(4));
    let empty = ItemSet::from_vec(&vec![]);
    assert_eq!(empty.items, vec![]);
    assert_eq!(empty.len(), 0);
}

#[test]
fn itemset_conversion_is_idempotent_and_order_independent() {
    let once = ItemSet::from_vec(&vec![5, 1, 5, 3]);
    let twice = ItemSet::from_vec(&once.items);
    assert_eq!(once.items, twice.items);
    let permuted = ItemSet::from_vec(&vec![3, 5, 1]);
    assert_eq!(once.items, permuted.items);
    assert!(once.equals(&twice));
    assert!(once.equals(&permuted));
}

#[test]
fn jagged_conversion_is_idempotent() {
    let rows = vec![vec![2, 1, 2], vec![4, 3], vec![]];
    let once = jagged_array_to_itemsetlist(&rows);
    let again = jagged_array_to_itemsetlist(&once.iter().map(|s| s.items.clone()).collect());
    assert_eq!(once.len(), again.len());
    for (a, b) in once.iter().zip(again.iter()) {
        assert_eq!(a.items, b.items);
    }
    assert_eq!(once[0].items, vec![1, 2]);
    assert_eq!(once[2].items, vec![]);
}

#[test]
fn itemset_union_merges_items() {
    let a = ItemSet::from_vec(&vec![1, 3]);
    let b = ItemSet::from_vec(&vec![2, 3, 5]);
    let u = a.union(&b);
    assert_eq!(u.items, vec![1, 2, 3, 5]);
}

#[test]
fn unique_itemset_is_union_of_all() {
    let data = jagged_array_to_itemsetlist(&vec![vec![1, 2], vec![2, 3], vec![5]]);
    let u = solve_unique_itemset(&data);
    assert_eq!(u.items, vec![1, 2, 3, 5]);
    let none = solve_unique_itemset(&vec![]);
    assert_eq!(none.items, vec![]);
}

#[test]
fn combinations_enumerate_all_fixed_size_subsets() {
    let items = ItemSet::from_vec(&vec![1, 2, 3, 4]);
    let pairs = solve_combinations(&items, 2);
    assert_eq!(pairs.len(), 6);
    let expected = vec![
        vec![1, 2],
        vec![1, 3],
        vec![1, 4],
        vec![2, 3],
        vec![2, 4],
        vec![3, 4],
    ];
    for want in &expected {
        assert!(pairs.iter().any(|c| &c.items == want));
    }
    for (i, a) in pairs.iter().enumerate() {
        for b in pairs.iter().skip(i + 1) {
            assert!(!a.equals(b));
        }
    }
    assert_eq!(solve_combinations(&items, 5).len(), 0);
    assert_eq!(solve_combinations(&items, 4).len(), 1);
}

#[test]
fn subset_check_requires_every_item() {
    let transaction = ItemSet::from_vec(&vec![1, 2, 3, 5]);
    assert!(combination_is_in_itemset(
        &transaction,
        &ItemSet::from_vec(&vec![2, 5])
    ));
    assert!(combination_is_in_itemset(
        &transaction,
        &ItemSet::from_vec(&vec![])
    ));
    assert!(!combination_is_in_itemset(
        &transaction,
        &ItemSet::from_vec(&vec![2, 4])
    ));
}

#[test]
fn supports_count_matches_and_omits_absent_candidates() {
    let data = jagged_array_to_itemsetlist(&vec![vec![1, 2], vec![1], vec![1, 2, 3]]);
    let candidates = jagged_array_to_itemsetlist(&vec![vec![1], vec![2], vec![1, 2], vec![4]]);
    let table = solve_supports(&data, &candidates, 0);
    assert_eq!(table.len(), 3);
    assert_eq!(table.get(&ItemSet::from_vec(&vec![1])), Some(3));
    assert_eq!(table.get(&ItemSet::from_vec(&vec![2])), Some(2));
    assert_eq!(table.get(&ItemSet::from_vec(&vec![1, 2])), Some(2));
    assert_eq!(table.get(&ItemSet::from_vec(&vec![4])), None);
}

#[test]
fn prune_drops_entries_below_threshold_and_keeps_counts() {
    let data = jagged_array_to_itemsetlist(&vec![vec![1, 2], vec![1], vec![1, 2, 3]]);
    let candidates = jagged_array_to_itemsetlist(&vec![vec![1], vec![2], vec![3]]);
    let table = solve_supports(&data, &candidates, 0);
    let kept = prune(&table, 2);
    assert_eq!(kept.len(), 2);
    assert_eq!(kept.get(&ItemSet::from_vec(&vec![1])), Some(3));
    assert_eq!(kept.get(&ItemSet::from_vec(&vec![2])), Some(2));
    assert_eq!(kept.get(&ItemSet::from_vec(&vec![3])), None);
    let all = prune(&table, 0);
    assert_eq!(all.len(), 3);
    let none = prune(&table, 4);
    assert_eq!(none.len(), 0);
    assert!(none.is_empty());
}

#[test]
fn extract_itemsets_returns_every_key() {
    let data = jagged_array_to_itemsetlist(&vec![vec![1, 2], vec![2]]);
    let candidates = jagged_array_to_itemsetlist(&vec![vec![1], vec![2]]);
    let table = solve_supports(&data, &candidates, 0);
    let keys = extract_itemsets(&table);
    assert_eq!(keys.len(), 2);
    assert!(keys.iter().any(|k| k.items == vec![1]));
    assert!(keys.iter().any(|k| k.items == vec![2]));
}

#[test]
fn raising_threshold_never_increases_survivors_at_a_level() {
    let rows = vec![
        vec![1, 3, 4],
        vec![2, 3, 5],
        vec![1, 2, 3, 5],
        vec![2, 5],
        vec![1, 3, 5],
    ];
    let data = jagged_array_to_itemsetlist(&rows);
    let working = solve_unique_itemset(&data);
    for level in 1..=4 {
        let candidates = solve_combinations(&working, level);
        let mut previous = usize::MAX;
        for threshold in 0..=6 {
            let table = solve_supports(&data, &candidates, threshold);
            assert!(table.len() <= previous);
            let looser = solve_supports(&data, &candidates, threshold.saturating_sub(1));
            for key in extract_itemsets(&table) {
                assert_eq!(table.get(&key), looser.get(&key));
            }
            previous = table.len();
        }
    }
}
