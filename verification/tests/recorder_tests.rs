use reality_engine::replay::recorder::Recorder;

#[test]
fn test_recorder_basic() {
    let mut rec: Recorder<u32, ()> = Recorder::new(3);
    let states = vec![0u32; 4];
    rec.record(1, &states, None);
    rec.record(2, &states, None);
    assert_eq!(rec.snapshots.len(), 2);
    assert!(rec.get(1).is_some());
    assert!(rec.get(2).is_some());
    assert!(rec.get(3).is_none());
}

#[test]
fn test_recorder_rolling_window() {
    let mut rec: Recorder<u32, ()> = Recorder::new(3);
    let states = vec![0u32; 4];
    rec.record(1, &states, None);
    rec.record(2, &states, None);
    rec.record(3, &states, None);
    rec.record(4, &states, None); // should evict tick 1
    assert_eq!(rec.snapshots.len(), 3);
    assert!(rec.get(1).is_none(), "oldest should be evicted");
    assert!(rec.get(4).is_some());
}

#[test]
fn test_recorder_latest() {
    let mut rec: Recorder<u32, ()> = Recorder::new(5);
    let states = vec![0u32; 4];
    assert!(rec.latest().is_none());
    rec.record(10, &states, None);
    rec.record(20, &states, None);
    assert_eq!(rec.latest().expect("should have latest").tick, 20);
}
