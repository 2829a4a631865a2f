//! Scheduling of background jobs.

use forst_rs::bg_pool::{PoolClass, PoolState};

#[test]
fn no_more_jobs_run_than_there_are_workers() {
    let mut pool: PoolState<u32> = PoolState::new(3);
    assert_eq!(pool.worker_count(), 3);
    for job in 0..12 {
        pool.submit(job);
    }
    assert_eq!(pool.take(), Some(0));
    assert_eq!(pool.take(), Some(1));
    assert_eq!(pool.take(), Some(2));
    assert_eq!(pool.take(), None);
    pool.ended();
    assert_eq!(pool.take(), Some(3));
    assert_eq!(pool.take(), None);
}

#[test]
fn a_pool_has_a_worker() {
    let mut pool: PoolState<u32> = PoolState::new(0);
    assert_eq!(pool.worker_count(), 1);
    assert_eq!(pool.take(), None);
    pool.submit(7);
    assert_eq!(pool.take(), Some(7));
}

#[test]
fn classes_of_workers() {
    assert!(!PoolClass::Foreground.is_background() && !PoolClass::Foreground.is_compaction());
    assert!(PoolClass::Flush.is_background() && !PoolClass::Flush.is_compaction());
    assert!(PoolClass::Compaction.is_background() && PoolClass::Compaction.is_compaction());
}
