use japanese_text_analyzer::occurrence::find_single_occurrences;
use japanese_text_analyzer::occurrence::generate_occurrence_list;
use japanese_text_analyzer::occurrence::merge;
use japanese_text_analyzer::occurrence::sort_occurrence_list;

fn words(items: &[&str]) -> Vec<String> {
    items.iter().map(|s| s.to_string()).collect()
}

#[test]
fn occurrences_of_repeated_symbols() {
    let input = words(&["A", "B", "A", "C", "B", "A"]);
    let map = generate_occurrence_list(&input);
    assert_eq!(map.len(), 3);
    assert_eq!(map.count_of(&"A".to_string()), 3);
    assert_eq!(map.count_of(&"B".to_string()), 2);
    assert_eq!(map.count_of(&"C".to_string()), 1);
    assert_eq!(map.count_of(&"D".to_string()), 0);
}

#[test]
fn occurrences_are_permutation_invariant() {
    let a = generate_occurrence_list(&words(&["A", "B", "A", "C", "B", "A"]));
    let b = generate_occurrence_list(&words(&["C", "A", "A", "B", "B", "A"]));
    for key in ["A", "B", "C", "D"] {
        assert_eq!(a.count_of(&key.to_string()), b.count_of(&key.to_string()));
    }
}

#[test]
fn counts_sum_to_input_length() {
    let input = words(&["A", "B", "A", "C", "B", "A"]);
    let map = generate_occurrence_list(&input);
    let total: u64 = sort_occurrence_list(&map).iter().map(|p| p.1).sum();
    assert_eq!(total, input.len() as u64);
}

#[test]
fn sorted_occurrences_descend() {
    let input = words(&["A", "B", "A", "C", "B", "A"]);
    let map = generate_occurrence_list(&input);
    let sorted = sort_occurrence_list(&map);
    assert_eq!(
        sorted,
        vec![("A".to_string(), 3), ("B".to_string(), 2), ("C".to_string(), 1)]
    );
    for pair in sorted.windows(2) {
        assert!(pair[0].1 >= pair[1].1);
    }
}

#[test]
fn sorted_occurrences_keep_first_seen_order_on_ties() {
    let map = generate_occurrence_list(&words(&["x", "y", "x", "y", "z"]));
    let sorted = sort_occurrence_list(&map);
    assert_eq!(
        sorted,
        vec![("x".to_string(), 2), ("y".to_string(), 2), ("z".to_string(), 1)]
    );
}

#[test]
fn singletons_are_symbols_counted_once() {
    let input = words(&["A", "B", "A", "C", "B", "A"]);
    let map = generate_occurrence_list(&input);
    let singles = find_single_occurrences(&map);
    assert_eq!(singles, vec!["C".to_string()]);
    assert!(singles.len() <= map.len());
}

#[test]
fn merge_adds_counts_per_key() {
    let a = generate_occurrence_list(&words(&["A", "B", "A"]));
    let b = generate_occurrence_list(&words(&["B", "C"]));
    let m = merge(&a, &b);
    assert_eq!(m.count_of(&"A".to_string()), 2);
    assert_eq!(m.count_of(&"B".to_string()), 2);
    assert_eq!(m.count_of(&"C".to_string()), 1);
    assert_eq!(m.len(), 3);
}

#[test]
fn merge_is_commutative_on_counts() {
    let a = generate_occurrence_list(&words(&["A", "B", "A"]));
    let b = generate_occurrence_list(&words(&["B", "C"]));
    let ab = merge(&a, &b);
    let ba = merge(&b, &a);
    for key in ["A", "B", "C", "D"] {
        assert_eq!(ab.count_of(&key.to_string()), ba.count_of(&key.to_string()));
    }
}

#[test]
fn singletons_are_derived_after_merging() {
    // One "A" in each batch: after a merge its count is 2, so it is no
    // singleton even though it was one in both batches.
    let a = generate_occurrence_list(&words(&["A", "B"]));
    let b = generate_occurrence_list(&words(&["A", "C"]));
    let m = merge(&a, &b);
    let singles = find_single_occurrences(&m);
    assert_eq!(singles, vec!["B".to_string(), "C".to_string()]);
}

#[test]
fn char_occurrences_count_characters() {
    let chars: Vec<char> = "花鳥風月花月".chars().collect();
    let map = generate_occurrence_list(&chars);
    assert_eq!(map.count_of(&'花'), 2);
    assert_eq!(map.count_of(&'月'), 2);
    assert_eq!(map.count_of(&'鳥'), 1);
    assert_eq!(map.count_of(&'山'), 0);
    assert_eq!(map.len(), 4);
}
