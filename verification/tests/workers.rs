use hungarian::workers::more_than_one;
use hungarian::{get_thread_count, threads_available};

#[test]
fn one_worker_is_not_more_than_one() {
    assert!(!more_than_one(0));
    assert!(!more_than_one(1));
    assert!(more_than_one(2));
    assert!(more_than_one(usize::MAX));
}

#[test]
fn the_pool_has_a_worker() {
    assert!(get_thread_count() >= 1);
}

#[test]
fn availability_follows_the_count() {
    let count = get_thread_count();
    assert_eq!(threads_available(), count > 1);
}
