use permute_sorted::PermuteSorted;

#[test]
fn basic() {
    let mut perm = PermuteSorted::new(vec![1.1, 2.2, 3.3]);
    assert_eq!(perm.next(), Some(vec![1.1, 2.2, 3.3]));
    assert_eq!(perm.next(), Some(vec![1.1, 3.3, 2.2]));

    let input = vec![1, 2, 3, 4, 5, 6, 7];
    let mut perm = PermuteSorted::new(input);
    assert_eq!(perm.next(), Some(vec![1, 2, 3, 4, 5, 6, 7]));
    assert_eq!(perm.next(), Some(vec![1, 2, 3, 4, 5, 7, 6]));
    assert_eq!(perm.next(), Some(vec![1, 2, 3, 4, 6, 5, 7]));

    let mut perm = PermuteSorted::new(vec![1, 2, 2]);
    assert_eq!(perm.next(), Some(vec![1, 2, 2]));
    assert_eq!(perm.next(), Some(vec![2, 1, 2]));
    assert_eq!(perm.next(), Some(vec![2, 2, 1]));
    assert_eq!(perm.next(), None);

    let mut perm = PermuteSorted::new(vec![std::f64::NAN, std::f64::NAN, 1.1, 2.2]);
    assert!(vec_compare(&perm.next().unwrap(), &vec![std::f64::NAN, std::f64::NAN, 1.1, 2.2]));
    assert!(vec_compare(&perm.next().unwrap(), &vec![std::f64::NAN, std::f64::NAN, 2.2, 1.1]));
    assert_eq!(perm.next(), None);

    let mut perm = PermuteSorted::new(vec!["a", "b", "c"]);
    assert_eq!(perm.next(), Some(vec!["a", "b", "c"]));
    assert_eq!(perm.next(), Some(vec!["a", "c", "b"]));
    assert_eq!(perm.next(), Some(vec!["b", "a", "c"]));
    assert_eq!(perm.next(), Some(vec!["b", "c", "a"]));
    assert_eq!(perm.next(), Some(vec!["c", "a", "b"]));
    assert_eq!(perm.next(), Some(vec!["c", "b", "a"]));
    assert_eq!(perm.next(), None);
    assert_eq!(perm.next(), None);
}

fn eq_with_nan_eq(a: f64, b: f64) -> bool {
    (a.is_nan() && b.is_nan()) || (a == b)
}

fn vec_compare(va: &[f64], vb: &[f64]) -> bool {
    (va.len() == vb.len()) && va.iter().zip(vb).all(|(a, b)| eq_with_nan_eq(*a, *b))
}

#[test]
fn three_distinct_full_traversal() {
    let mut perm = PermuteSorted::new(vec![1, 2, 3]);
    assert_eq!(perm.next(), Some(vec![1, 2, 3]));
    assert_eq!(perm.next(), Some(vec![1, 3, 2]));
    assert_eq!(perm.next(), Some(vec![2, 1, 3]));
    assert_eq!(perm.next(), Some(vec![2, 3, 1]));
    assert_eq!(perm.next(), Some(vec![3, 1, 2]));
    assert_eq!(perm.next(), Some(vec![3, 2, 1]));
    assert_eq!(perm.next(), None);
}

#[test]
fn empty_sequence() {
    let mut perm = PermuteSorted::new(Vec::<i32>::new());
    assert_eq!(perm.next(), Some(vec![]));
    assert_eq!(perm.next(), None);
    assert_eq!(perm.next(), None);
}

#[test]
fn singleton_sequence() {
    let mut perm = PermuteSorted::new(vec![7]);
    assert_eq!(perm.next(), Some(vec![7]));
    assert_eq!(perm.next(), None);
}

#[test]
fn first_retrieval_is_the_input() {
    let input = vec![2, 2, 5, 9, 9, 11];
    let mut perm = PermuteSorted::new(input.clone());
    assert_eq!(perm.next(), Some(input));
}

#[test]
fn count_is_factorial_for_distinct_elements() {
    let mut perm = PermuteSorted::new(vec![1, 2, 3, 4]);
    let mut count = 0;
    while perm.next().is_some() {
        count += 1;
    }
    assert_eq!(count, 24);
}

#[test]
fn count_with_duplicates() {
    // 4! / (2! * 2!) = 6 distinct arrangements
    let mut perm = PermuteSorted::new(vec![1, 1, 2, 2]);
    let mut count = 0;
    while perm.next().is_some() {
        count += 1;
    }
    assert_eq!(count, 6);
}

#[test]
fn every_output_is_a_permutation_of_the_input() {
    let input = vec![1, 2, 2, 3];
    let mut perm = PermuteSorted::new(input.clone());
    let mut sorted_input = input.clone();
    sorted_input.sort();
    while let Some(p) = perm.next() {
        assert_eq!(p.len(), input.len());
        let mut sorted = p.clone();
        sorted.sort();
        assert_eq!(sorted, sorted_input);
    }
}

#[test]
fn outputs_strictly_increase_and_end_descending() {
    let mut perm = PermuteSorted::new(vec![1, 2, 3, 4]);
    let mut previous: Option<Vec<i32>> = None;
    let mut last: Vec<i32> = Vec::new();
    while let Some(p) = perm.next() {
        if let Some(q) = previous {
            assert!(q < p);
        }
        last = p.clone();
        previous = Some(p);
    }
    assert_eq!(last, vec![4, 3, 2, 1]);
}

#[test]
fn exhaustion_is_idempotent() {
    let mut perm = PermuteSorted::new(vec![5, 6]);
    assert_eq!(perm.next(), Some(vec![5, 6]));
    assert_eq!(perm.next(), Some(vec![6, 5]));
    for _ in 0..5 {
        assert_eq!(perm.next(), None);
    }
}
