use simple_frequent_itemsets::frequent_itemsets;
use simple_frequent_itemsets::jagged_array_to_itemsetlist;
use simple_frequent_itemsets::ItemSet;
use simple_frequent_itemsets::Supports;

/// The table holds exactly the expected entries: each expected itemset with
/// its expected count, and nothing else.
fn assert_table(output: &Supports, expected: &[(Vec<usize>, usize)]) {
    assert_eq!(output.len(), expected.len());
    for (row, count) in expected {
        let key = ItemSet::from_vec(row);
        assert_eq!(output.get(&key), Some(*count));
    }
}

#[test]
fn empty_output_with_empty_input() {
    let support_minimum = 2;
    let dataset: Vec<Vec<usize>> = vec![];
    let data = jagged_array_to_itemsetlist(&dataset);
    let output = frequent_itemsets(&data, support_minimum);
    assert_table(&output, &[]);
}

#[test]
fn returns_all_with_minimum_support_zero() {
    let support_minimum = 0;
    let dataset = vec![
        vec![1],
        vec![1, 2],
        vec![1, 2, 3],
        vec![1, 2, 3, 4],
        vec![1, 2, 3, 4, 5],
    ];
    let data = jagged_array_to_itemsetlist(&dataset);
    let output = frequent_itemsets(&data, support_minimum);
    assert_table(&output, &[(vec![1, 2, 3, 4, 5], 1)]);
}

#[test]
fn returns_all_with_minimum_support_one() {
    let support_minimum = 1;
    let dataset = vec![
        vec![1, 3, 4],
        vec![2, 3, 5],
        vec![1, 2, 3, 5],
        vec![2, 5],
        vec![1, 3, 5],
    ];
    let data = jagged_array_to_itemsetlist(&dataset);
    let output = frequent_itemsets(&data, support_minimum);
    assert_table(&output, &[(vec![1, 2, 3, 5], 1)]);
}

#[test]
fn various_data_with_minimum_support_2_instance_1() {
    let support_minimum = 2;
    let dataset = vec![
        vec![1, 3, 4],
        vec![2, 3, 5],
        vec![1, 2, 3, 5],
        vec![2, 5],
        vec![1, 3, 5],
    ];
    let data = jagged_array_to_itemsetlist(&dataset);
    let output = frequent_itemsets(&data, support_minimum);
    assert_table(&output, &[(vec![1, 3, 5], 2), (vec![2, 3, 5], 2)]);
}

#[test]
fn various_data_with_minimum_support_2_instance_2() {
    let support_minimum = 2;
    let dataset = vec![
        vec![1, 2, 5],
        vec![2, 4],
        vec![2, 3],
        vec![1, 2, 4],
        vec![1, 3],
        vec![2, 3],
        vec![1, 3],
        vec![1, 2, 3, 5],
        vec![1, 2, 3],
    ];
    let data = jagged_array_to_itemsetlist(&dataset);
    let output = frequent_itemsets(&data, support_minimum);
    assert_table(&output, &[(vec![1, 2, 3], 2), (vec![1, 2, 5], 2)]);
}

#[test]
fn various_data_with_minimum_support_3() {
    let support_minimum = 3;
    let dataset = vec![
        vec![1, 2, 3],
        vec![2, 3, 4],
        vec![2, 3, 5],
        vec![1, 2, 3],
        vec![1, 2, 3],
    ];
    let data = jagged_array_to_itemsetlist(&dataset);
    let output = frequent_itemsets(&data, support_minimum);
    assert_table(&output, &[(vec![1, 2, 3], 3)]);
}
