use eigen_trust::epoch::Epoch;

#[test]
fn epochs_step_and_divide_time() {
    let e = Epoch(10);
    assert_eq!(e.next(), Epoch(11));
    assert_eq!(e.previous(), Epoch(9));
    assert_eq!(Epoch::epoch_at(100, 60), Epoch(1));
    assert_eq!(Epoch::epoch_at(59, 60), Epoch(0));
    assert_eq!(Epoch::secs_until_next_epoch_at(100, 60), 20);
    assert_eq!(Epoch::secs_until_next_epoch_at(120, 60), 60);
}

#[test]
fn epoch_counter_serializes_big_endian() {
    let e = Epoch(0x0102_0304_0506_0708);
    assert_eq!(e.to_be_bytes(), [1, 2, 3, 4, 5, 6, 7, 8]);
}

#[test]
fn clock_reads_give_epochs() {
    let ts = Epoch::current_timestamp().unwrap();
    assert!(ts > 0);
    let epoch = Epoch::current_epoch(60).unwrap();
    assert!(epoch.0 <= ts);
    let remaining = Epoch::secs_until_next_epoch(60).unwrap();
    assert!(remaining >= 1 && remaining <= 60);
}
