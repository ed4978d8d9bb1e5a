use incremental_radix::IncrementalSorter;
use rand::random;

fn compare_with_stdlib_with_calls(data: &Vec<usize>, calls: usize) {
    let cpy1 = data.clone();
    let mut cpy2 = data.clone();

    let mut incr_sort = IncrementalSorter::with_iterations_per_call(cpy1, calls);
    incr_sort.prepare().unwrap();

    while !incr_sort.sort().unwrap() {}

    let sorted_data = incr_sort.get_result().unwrap();

    cpy2.sort();
    assert_eq!(cpy2, sorted_data);
}

fn compare_with_stdlib(data: &Vec<usize>) {
    compare_with_stdlib_with_calls(data, 1);
    compare_with_stdlib_with_calls(data, 2);
    compare_with_stdlib_with_calls(data, 64);
}

#[test]
fn simple_example() {
    let data = vec![10, 20, 30000, 30, 5, 1, 90, 128];
    compare_with_stdlib(&data);
}

#[test]
fn all_identical() {
    let data = vec![30, 30, 30, 30, 30];
    compare_with_stdlib(&data);
}

#[test]
fn random_size_500() {
    for _ in 0..100 {
        let mut data = Vec::new();
        for _ in 0..500 {
            let v = random::<f64>();
            data.push((v * 10000.0) as usize);
        }
        compare_with_stdlib(&data);
    }
}

#[test]
fn random_size_50000() {
    for _ in 0..5 {
        let mut data = Vec::new();
        for _ in 0..50000 {
            let v = random::<f64>();
            data.push((v * 10000.0) as usize);
        }
        compare_with_stdlib(&data);
    }
}
