use best_hits::partition::partition_trials;
use best_hits::worker::{best_update, BestUpdate, Worker};
use rand::rngs::SmallRng;
use rand::SeedableRng;
use std::sync::atomic::{AtomicU32, Ordering};

#[test]
fn update_when_proposal_is_the_best() {
    assert_eq!(best_update(2, 9, 60, 55), Some(BestUpdate { worker: 2, trial: 9, best: 60 }));
    // A tie counts: the proposal equals the best afterwards.
    assert_eq!(best_update(1, 4, 55, 55), Some(BestUpdate { worker: 1, trial: 4, best: 55 }));
    assert_eq!(best_update(0, 0, 0, 0), Some(BestUpdate { worker: 0, trial: 0, best: 0 }));
}

#[test]
fn no_update_below_the_best() {
    assert_eq!(best_update(3, 1, 54, 55), None);
}

#[test]
fn worker_runs_its_share_and_best_never_decreases() {
    let best = AtomicU32::new(0);
    let mut w = Worker::new(1, 300, SmallRng::seed_from_u64(1));
    let mut last = 0;
    let mut updates = 0;
    while !w.is_done() {
        let before = w.completed;
        let u = w.run_trial(&best);
        assert_eq!(w.completed, before + 1);
        let now = best.load(Ordering::SeqCst);
        assert!(now >= last);
        if let Some(u) = u {
            assert_eq!(u.worker, 1);
            assert_eq!(u.trial, before);
            assert!(u.best >= last);
            updates += 1;
        }
        last = now;
    }
    assert_eq!(w.completed, 300);
    assert!(updates >= 1);
}

#[test]
fn thousand_trials_on_four_workers() {
    let shares = partition_trials(1000, 4);
    assert_eq!(shares.iter().sum::<usize>(), 1000);
    assert!(shares.iter().all(|&s| (249..=251).contains(&s)));
    let best = AtomicU32::new(0);
    let mut updates = 0;
    for (t, &share) in shares.iter().enumerate() {
        let mut w = Worker::new(t, share, SmallRng::seed_from_u64(100 + t as u64));
        while !w.is_done() {
            if w.run_trial(&best).is_some() {
                updates += 1;
            }
        }
        assert_eq!(w.completed, share);
    }
    assert!(updates >= 1);
    let b = best.load(Ordering::SeqCst);
    assert!((30..=90).contains(&b), "best {b}");
}
