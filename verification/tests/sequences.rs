use cs_course::sequences::{
    is_fibonacci, sigma, interleave3, interleave_n, find_count_n, two_dimensional_sum, is_palindrome,
};
use cs_course::median_position::position_median;
use cs_course::cartesian::sum_is_n;
use cs_course::sorting::sort_isize;
use cs_course::inversions::inversion;
use cs_course::means::{k_smallest_sum, class_totals};

#[test]
fn fibonacci_check() {
    assert!(is_fibonacci(vec![1, 1, 2, 3, 5, 8, 13]));
    assert!(!is_fibonacci(vec![1, 1, 2, 3, 5, 8, 14]));
    assert!(is_fibonacci(vec![]));
    assert!(is_fibonacci(vec![7, -3]));
    assert!(!is_fibonacci(vec![i64::MAX, 1, 0]));
}

#[test]
fn sigma_examples() {
    assert_eq!(sigma(vec![1, 2], |x: i64| x + 2), 7);
    assert_eq!(sigma(vec![1, 2], |x: i64| x * 4), 12);
    assert_eq!(sigma(Vec::<i64>::new(), |x: i64| x), 0);
}

#[test]
fn interleaving() {
    assert_eq!(interleave3(vec![1, 2], vec![3, 4], vec![5, 6]), vec![1, 3, 5, 2, 4, 6]);
    assert_eq!(interleave3(vec![1, 2], vec![3], vec![5, 6]), vec![1, 3, 5]);
    assert_eq!(interleave_n(vec![vec![1, 2], vec![3, 4], vec![5, 6]]), vec![1, 3, 5, 2, 4, 6]);
    assert_eq!(interleave_n(vec![vec![1, 2], vec![3]]), vec![1, 3, 2]);
}

#[test]
fn interleave_no_lists() {
    assert_eq!(interleave_n(Vec::<Vec<i64>>::new()), Vec::<i64>::new());
    assert_eq!(interleave_n(vec![vec![1, 2], vec![]]), vec![1]);
}

#[test]
fn count_n_examples() {
    assert_eq!(find_count_n(vec![1, 2], 1), vec![1, 2]);
    assert_eq!(find_count_n(vec![1, 3, 3], 1), vec![1]);
    assert_eq!(find_count_n(vec![1, 3, 3], 2), vec![3]);
    assert_eq!(find_count_n(vec![1, 2, 3, 4, 4], 1), vec![1, 2, 3]);
    assert_eq!(find_count_n(vec![5, 4, 5, 4, 9], 2), vec![4, 5]);
    assert_eq!(find_count_n(vec![], 0), Vec::<usize>::new());
}

#[test]
fn median_position_examples() {
    assert_eq!(position_median(vec![1, 3, 3, 6, 7, 8, 9]), Some(3));
    assert_eq!(position_median(vec![1, 3, 3, 3]), Some(1));
    assert_eq!(position_median(Vec::<i32>::new()), None);
    assert_eq!(position_median(vec![9, 2, 7, 2]), Some(2));
    assert_eq!(position_median(vec!["b", "a", "c"]), Some(0));
}

#[test]
fn sum_is_n_examples() {
    assert_eq!(sum_is_n(vec![vec![1, 2, 3], vec![2, 3]], 3), 1);
    assert_eq!(sum_is_n(vec![vec![1, 2, 3], vec![2, 3]], 4), 2);
    assert_eq!(sum_is_n(vec![vec![1, 2, 3], vec![2, 3]], 5), 2);
    assert_eq!(sum_is_n(vec![vec![1, 2, 3], vec![2, 3]], 6), 1);
    assert_eq!(sum_is_n(vec![vec![1, 2, 3], vec![2, 3]], 2), 0);
}

#[test]
fn sum_is_n_edges() {
    assert_eq!(sum_is_n(vec![], 0), 1);
    assert_eq!(sum_is_n(vec![], 3), 0);
    assert_eq!(sum_is_n(vec![vec![1, 2], vec![]], 3), 0);
    assert_eq!(sum_is_n(vec![vec![1, 1], vec![-1, 1], vec![0]], 0), 2);
}

#[test]
fn two_dimensional_sum_example() {
    assert_eq!(two_dimensional_sum(vec![vec![1, 2, 3], vec![4, 5, 6]]), 21);
    assert_eq!(two_dimensional_sum(vec![]), 0);
    assert_eq!(two_dimensional_sum(vec![vec![], vec![-4]]), -4);
}

#[test]
fn palindromes() {
    assert!(is_palindrome("kayak".to_string()));
    assert!(is_palindrome("".to_string()));
    assert!(!is_palindrome("ab".to_string()));
    assert!(is_palindrome("abba".to_string()));
}

#[test]
fn sorting_isize() {
    assert_eq!(sort_isize(&vec![3, -1, 2, -1]), vec![-1, -1, 2, 3]);
    assert_eq!(sort_isize(&vec![]), Vec::<isize>::new());
}

#[test]
fn inversions_example() {
    assert_eq!(inversion(vec![3, 5, 1, 2, 4]), vec![(0, 2), (0, 3), (1, 2), (1, 3), (1, 4)]);
    assert_eq!(inversion(vec![1, 2, 3]), Vec::<(usize, usize)>::new());
    assert_eq!(inversion(vec!["c", "b", "b"]), vec![(0, 1), (0, 2)]);
}

#[test]
fn k_smallest_sums() {
    assert_eq!(k_smallest_sum(vec![1, 3, 2], 2), (3, 2));
    assert_eq!(k_smallest_sum(vec![7, 5, 3, 6], 3), (14, 3));
    assert_eq!(k_smallest_sum(vec![4], 9), (4, 1));
    assert_eq!(k_smallest_sum(vec![], 2), (0, 0));
    assert_eq!(k_smallest_sum(vec![i64::MAX, i64::MAX], 2), (2 * i64::MAX as i128, 2));
}

#[test]
fn class_totals_example() {
    let items = vec![
        ("CS100".to_string(), 60),
        ("CS200".to_string(), 60),
        ("CS200".to_string(), 80),
        ("CS300".to_string(), 100),
    ];
    assert_eq!(
        class_totals(items),
        Some(vec![
            ("CS100".to_string(), 60, 1),
            ("CS200".to_string(), 140, 2),
            ("CS300".to_string(), 100, 1)
        ])
    );
    assert_eq!(class_totals(vec![("A".to_string(), i64::MAX), ("A".to_string(), 1)]), None);
    assert_eq!(class_totals(vec![]), Some(vec![]));
}
