use kernels::bubble_sort;

/// A repeatable stream of values that covers the whole range of `i32`.
fn scrambled(count: usize, seed: u32) -> Vec<i32> {
    let mut state: u32 = seed;
    let mut values: Vec<i32> = Vec::with_capacity(count);
    while values.len() < count {
        state = state.wrapping_mul(1_664_525).wrapping_add(1_013_904_223);
        values.push(i32::from_ne_bytes(state.to_ne_bytes()));
    }
    values
}

fn is_non_descending(values: &[i32]) -> bool {
    values.windows(2).all(|pair| pair[0] <= pair[1])
}

#[test]
fn empty_buffer_stays_empty() {
    let mut values: Vec<i32> = Vec::new();
    bubble_sort(&mut values);
    assert_eq!(values, Vec::<i32>::new());
}

#[test]
fn empty_part_of_a_buffer_changes_nothing() {
    let mut values: Vec<i32> = vec![3, 2, 1];
    bubble_sort(&mut values[1..1]);
    assert_eq!(values, vec![3, 2, 1]);
}

#[test]
fn single_value_is_unchanged() {
    let mut values: Vec<i32> = vec![42];
    bubble_sort(&mut values);
    assert_eq!(values, vec![42]);
    let mut lowest: [i32; 1] = [i32::MIN];
    bubble_sort(&mut lowest);
    assert_eq!(lowest, [i32::MIN]);
}

#[test]
fn two_values_in_both_orders() {
    let mut rising: [i32; 2] = [1, 2];
    bubble_sort(&mut rising);
    assert_eq!(rising, [1, 2]);
    let mut falling: [i32; 2] = [2, 1];
    bubble_sort(&mut falling);
    assert_eq!(falling, [1, 2]);
}

#[test]
fn descending_five_become_ascending() {
    let mut values: Vec<i32> = vec![5, 4, 3, 2, 1];
    bubble_sort(&mut values);
    assert_eq!(values, vec![1, 2, 3, 4, 5]);
}

#[test]
fn sorted_buffer_is_unchanged() {
    let mut values: Vec<i32> = vec![-7, -7, 0, 1, 2, 2, 900];
    bubble_sort(&mut values);
    assert_eq!(values, vec![-7, -7, 0, 1, 2, 2, 900]);
}

#[test]
fn duplicates_are_all_kept() {
    let mut values: Vec<i32> = vec![3, 1, 3, 2, 1, 3, 2];
    bubble_sort(&mut values);
    assert_eq!(values, vec![1, 1, 2, 2, 3, 3, 3]);
}

#[test]
fn all_equal_values_are_unchanged() {
    let mut values: Vec<i32> = vec![7; 16];
    bubble_sort(&mut values);
    assert_eq!(values, vec![7; 16]);
}

#[test]
fn negative_values_and_the_ends_of_the_range() {
    let mut values: Vec<i32> = vec![0, i32::MAX, -1, i32::MIN, 1, i32::MIN, i32::MAX];
    bubble_sort(&mut values);
    assert_eq!(values, vec![i32::MIN, i32::MIN, -1, 0, 1, i32::MAX, i32::MAX]);
}

#[test]
fn smallest_value_at_the_end_travels_to_the_front() {
    let mut values: Vec<i32> = vec![2, 3, 4, 5, 6, 1];
    bubble_sort(&mut values);
    assert_eq!(values, vec![1, 2, 3, 4, 5, 6]);
}

#[test]
fn sorting_twice_is_sorting_once() {
    let mut seed: u32 = 1;
    while seed <= 20 {
        let mut once: Vec<i32> = scrambled(50, seed);
        bubble_sort(&mut once);
        let mut twice: Vec<i32> = once.clone();
        bubble_sort(&mut twice);
        assert_eq!(twice, once);
        seed += 1;
    }
}

#[test]
fn agrees_with_the_standard_sort() {
    let mut count: usize = 0;
    while count <= 64 {
        let mut values: Vec<i32> = scrambled(count, 77);
        let mut expected: Vec<i32> = values.clone();
        expected.sort();
        bubble_sort(&mut values);
        assert!(is_non_descending(&values));
        assert_eq!(values, expected);
        count += 1;
    }
}

#[test]
fn agrees_with_the_standard_sort_on_few_distinct_values() {
    let mut seed: u32 = 0;
    while seed < 50 {
        let mut values: Vec<i32> = scrambled(40, seed).iter().map(|v| v.rem_euclid(4)).collect();
        let mut expected: Vec<i32> = values.clone();
        expected.sort();
        bubble_sort(&mut values);
        assert_eq!(values, expected);
        seed += 1;
    }
}

#[test]
fn only_the_given_part_of_a_buffer_is_sorted() {
    let mut values: Vec<i32> = vec![9, 8, 7, 6, 5, 4, 3];
    bubble_sort(&mut values[2..5]);
    assert_eq!(values, vec![9, 8, 5, 6, 7, 4, 3]);
}
