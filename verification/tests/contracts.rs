use incremental_radix::IncrementalSorter;
use incremental_radix::SorterState;
use incremental_radix::UsageError;

fn run_to_completion(sorter: &mut IncrementalSorter) {
    while !sorter.sort().unwrap() {}
}

fn sort_with_budget(data: Vec<usize>, budget: usize) -> Vec<usize> {
    let mut sorter = IncrementalSorter::with_iterations_per_call(data, budget);
    sorter.prepare().unwrap();
    run_to_completion(&mut sorter);
    sorter.get_result().unwrap()
}

#[test]
fn exact_order_for_small_budgets() {
    let expected = vec![1, 5, 10, 20, 30, 90, 128, 30000];
    for budget in [1, 2, 64] {
        let data = vec![10, 20, 30000, 30, 5, 1, 90, 128];
        assert_eq!(sort_with_budget(data, budget), expected);
    }
}

#[test]
fn budget_exceeding_length() {
    let data = vec![10, 20, 30000, 30, 5, 1, 90, 128];
    let expected = vec![1, 5, 10, 20, 30, 90, 128, 30000];
    assert_eq!(sort_with_budget(data, 1000), expected);
}

#[test]
fn empty_sequence() {
    let mut sorter = IncrementalSorter::new(Vec::new());
    sorter.prepare().unwrap();
    // zero passes are required; the one step is a no-op success
    assert!(sorter.sort().unwrap());
    let result = sorter.get_result().unwrap();
    assert!(result.is_empty());
}

#[test]
fn all_zeros_needs_no_pass() {
    let mut sorter = IncrementalSorter::new(vec![0, 0, 0]);
    sorter.prepare().unwrap();
    assert!(sorter.sort().unwrap());
    assert_eq!(sorter.get_result().unwrap(), vec![0, 0, 0]);
}

#[test]
fn single_element() {
    for budget in [1, 64] {
        assert_eq!(sort_with_budget(vec![7], budget), vec![7]);
    }
}

#[test]
fn prepare_twice_is_rejected() {
    let mut sorter = IncrementalSorter::new(vec![3, 1, 2]);
    sorter.prepare().unwrap();
    assert_eq!(
        sorter.prepare(),
        Err(UsageError::ExpectedUnprepared { actual: SorterState::Counting })
    );
}

#[test]
fn sort_before_prepare_is_rejected() {
    let mut sorter = IncrementalSorter::new(vec![3, 1, 2]);
    assert_eq!(
        sorter.sort(),
        Err(UsageError::ExpectedSorting { actual: SorterState::Unprepared })
    );
}

#[test]
fn sort_after_completion_is_rejected() {
    let mut sorter = IncrementalSorter::new(vec![3, 1, 2]);
    sorter.prepare().unwrap();
    run_to_completion(&mut sorter);
    assert_eq!(
        sorter.sort(),
        Err(UsageError::ExpectedSorting { actual: SorterState::Finished })
    );
}

#[test]
fn extract_before_completion_is_rejected() {
    let mut sorter = IncrementalSorter::new(vec![3, 1, 2]);
    sorter.prepare().unwrap();
    let result = sorter.get_result();
    assert_eq!(
        result,
        Err(UsageError::ExpectedFinished { actual: SorterState::Counting })
    );
}

#[test]
fn budgets_agree_with_each_other() {
    let data = vec![9, 8, 7, 6, 5, 4, 3, 2, 1, 0, 255, 128, 64, 32, 16];
    let a = sort_with_budget(data.clone(), 1);
    let b = sort_with_budget(data.clone(), 3);
    let c = sort_with_budget(data, 1 << 20);
    assert_eq!(a, b);
    assert_eq!(b, c);
}
