use parallel_reducer::combine_partials;
use parallel_reducer::make_slices;
use parallel_reducer::parallel_sum;
use parallel_reducer::sequential_sum;
use parallel_reducer::slice_sum;

#[test]
fn five_elements_two_workers() {
    let data: Vec<i64> = vec![1, 2, 3, 4, 5];
    let total = parallel_sum(&data, 2);
    assert_eq!(total, 15);
    assert_eq!(total, sequential_sum(&data));
}

#[test]
fn slices_of_five_over_two() {
    let slices = make_slices(5, 2);
    assert_eq!(slices, vec![(0, 3), (3, 5)]);
    assert_eq!(slices[0].1 - slices[0].0, 3);
    assert_eq!(slices[1].1 - slices[1].0, 2);
}

#[test]
fn parallel_matches_sequential_for_many_worker_counts() {
    let data: Vec<i64> = vec![9, -4, 0, 27, -13, 5, 5, 1, -1, 100, 42];
    let expected = sequential_sum(&data);
    for w in 1..=16 {
        assert_eq!(parallel_sum(&data, w), expected);
    }
}

#[test]
fn zero_workers_short_circuit() {
    let data: Vec<i64> = vec![1, 2, 3];
    assert_eq!(parallel_sum(&data, 0), 0);
}

#[test]
fn empty_input_short_circuit() {
    let data: Vec<i64> = Vec::new();
    assert_eq!(parallel_sum(&data, 8), 0);
    assert!(make_slices(0, 8).is_empty());
}

#[test]
fn worker_count_clamped_to_length() {
    assert_eq!(make_slices(3, 10).len(), 3);
    assert_eq!(make_slices(10, 3).len(), 3);
    assert_eq!(make_slices(10, 10).len(), 10);
    assert_eq!(make_slices(1, 100).len(), 1);
}

#[test]
fn partition_covers_contiguously_and_balanced() {
    for (len, w) in [(10, 3), (7, 4), (100, 7), (5, 5), (13, 1)] {
        let slices = make_slices(len, w);
        assert_eq!(slices.len(), w.min(len));
        assert_eq!(slices[0].0, 0);
        assert_eq!(slices[slices.len() - 1].1, len);
        for k in 0..slices.len() - 1 {
            assert_eq!(slices[k].1, slices[k + 1].0);
        }
        let lens: Vec<usize> = slices.iter().map(|s| s.1 - s.0).collect();
        assert_eq!(lens.iter().sum::<usize>(), len);
        assert!(lens.iter().max().unwrap() - lens.iter().min().unwrap() <= 1);
    }
}

#[test]
fn first_slices_absorb_remainder() {
    let slices = make_slices(10, 3);
    assert_eq!(slices, vec![(0, 4), (4, 7), (7, 10)]);
    let slices = make_slices(7, 4);
    assert_eq!(slices, vec![(0, 2), (2, 4), (4, 6), (6, 7)]);
}

#[test]
fn repeated_calls_agree() {
    let data: Vec<i64> = (0..1000).map(|i| (i * 7 - 350) as i64).collect();
    let first = parallel_sum(&data, 6);
    for _ in 0..5 {
        assert_eq!(parallel_sum(&data, 6), first);
    }
}

#[test]
fn two_million_elements_do_not_overflow() {
    let n: usize = 2_000_000;
    let data: Vec<i64> = (0..n).map(|i| (i % 1000) as i64).collect();
    let total = parallel_sum(&data, 8);
    assert_eq!(total, 999_000_000);
    assert_eq!(total, sequential_sum(&data));
}

#[test]
fn extreme_values_widened_before_adding() {
    let data: Vec<i64> = vec![i64::MAX, i64::MAX, i64::MIN];
    let expected = i64::MAX as i128 + i64::MAX as i128 + i64::MIN as i128;
    assert_eq!(parallel_sum(&data, 2), expected);
    assert_eq!(sequential_sum(&data), expected);
}

#[test]
fn slice_sum_covers_its_range_only() {
    let data: Vec<i64> = vec![1, 2, 3, 4, 5];
    assert_eq!(slice_sum(&data, 1, 4), 9);
    assert_eq!(slice_sum(&data, 0, 5), 15);
    assert_eq!(slice_sum(&data, 2, 2), 0);
}

#[test]
fn combine_adds_in_order() {
    assert_eq!(combine_partials(&vec![5, -3, 2]), Some(4));
    assert_eq!(combine_partials(&Vec::new()), Some(0));
}

#[test]
fn combine_reports_overflowing_prefix() {
    assert_eq!(combine_partials(&vec![i128::MAX, 1]), None);
    assert_eq!(combine_partials(&vec![i128::MAX, 1, -2]), None);
    assert_eq!(combine_partials(&vec![i128::MIN, -1]), None);
    assert_eq!(combine_partials(&vec![i128::MAX, -1, 1]), Some(i128::MAX));
}
