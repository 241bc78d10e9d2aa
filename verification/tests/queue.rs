//! The order in which downloads are worked on.

use udemyget::lecture::MAX_CONCURRENT_DOWNLOADS;
use udemyget::queue::TaskQueue;

#[test]
fn ten_downloads_are_at_work() {
    assert_eq!(MAX_CONCURRENT_DOWNLOADS, 10);
    let mut queue = TaskQueue::new();
    for id in 1..=10 {
        assert!(queue.submit(id));
    }
    for id in 11..=13 {
        assert!(!queue.submit(id));
    }
    assert_eq!(queue.finish(4), Some(11));
    assert_eq!(queue.finish(4), None);
    assert_eq!(queue.finish(12), None);
    assert_eq!(queue.finish(11), Some(12));
    assert_eq!(queue.finish(1), Some(13));
    assert_eq!(queue.finish(2), None);
    assert!(queue.submit(14));
    assert!(!queue.submit(15));
}

#[test]
fn unknown_downloads_do_not_end() {
    let mut queue = TaskQueue::new();
    assert_eq!(queue.finish(1), None);
    assert!(queue.submit(1));
    assert_eq!(queue.finish(1), None);
    assert_eq!(queue.finish(1), None);
}
