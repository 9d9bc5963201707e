use parcel_build::worker_init::{get_worker, register_worker, WorkerInit};

#[test]
fn subscribers_wait_for_workers() {
    let mut init: WorkerInit<&str, u32> = WorkerInit::new();
    assert_eq!(get_worker(&mut init, 1), None);
    assert_eq!(get_worker(&mut init, 2), None);
    assert_eq!(register_worker(&mut init, "w1"), Some((2, "w1")));
    assert_eq!(register_worker(&mut init, "w2"), Some((1, "w2")));
    assert_eq!(register_worker(&mut init, "w3"), None);
    assert_eq!(get_worker(&mut init, 9), Some((9, "w3")));
    assert_eq!(get_worker(&mut init, 10), None);
}
