use best_hits::partition::partition_trials;

fn check(total: usize, workers: usize) -> Vec<usize> {
    let shares = partition_trials(total, workers);
    assert_eq!(shares.len(), workers);
    assert_eq!(shares.iter().sum::<usize>(), total);
    let lo = *shares.iter().min().unwrap();
    let hi = *shares.iter().max().unwrap();
    assert!(hi - lo <= 1);
    shares
}

#[test]
fn even_split() {
    assert_eq!(check(1000, 4), vec![250, 250, 250, 250]);
}

#[test]
fn uneven_split_gives_later_workers_the_extra() {
    assert_eq!(check(10, 3), vec![3, 3, 4]);
    assert_eq!(check(1001, 4), vec![250, 250, 250, 251]);
    assert_eq!(check(1003, 4), vec![250, 251, 251, 251]);
}

#[test]
fn single_worker_takes_all() {
    assert_eq!(check(7, 1), vec![7]);
    assert_eq!(check(1_000_000_000, 1), vec![1_000_000_000]);
}

#[test]
fn fewer_trials_than_workers() {
    assert_eq!(check(2, 5), vec![0, 0, 0, 1, 1]);
    assert_eq!(check(0, 3), vec![0, 0, 0]);
}

#[test]
fn many_sizes_sum_exactly() {
    for total in 0..200 {
        for workers in 1..17 {
            check(total, workers);
        }
    }
    check(usize::MAX, 7);
    check(1_000_000_000, 12);
}
