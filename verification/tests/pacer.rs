use m0_core::throttling::Throttle;

#[test]
fn first_emission_goes_out_at_once() {
    let mut pacer = Throttle::new(50);
    assert_eq!(pacer.wait(1000), 0);
    assert_eq!(pacer.last_emission_ms, Some(1000));
}

#[test]
fn emissions_keep_the_minimum_gap() {
    let mut pacer = Throttle::new(50);
    assert_eq!(pacer.wait(1000), 0);
    // Requested immediately again: must wait out the interval.
    assert_eq!(pacer.wait(1000), 50);
    assert_eq!(pacer.last_emission_ms, Some(1050));
    // Requested 10 ms before the interval ends.
    assert_eq!(pacer.wait(1090), 10);
    assert_eq!(pacer.last_emission_ms, Some(1100));
    // Requested long after: no wait.
    assert_eq!(pacer.wait(2000), 0);
    assert_eq!(pacer.last_emission_ms, Some(2000));
}

#[test]
fn gaps_are_never_under_the_interval() {
    let mut pacer = Throttle::new(7);
    let requests = [0u64, 1, 2, 3, 50, 51, 52, 100, 101, 102];
    let mut last: Option<u64> = None;
    for &t in requests.iter() {
        let wait = pacer.wait(t);
        let emitted = t + wait;
        if let Some(prev) = last {
            assert!(emitted - prev >= 7);
        }
        last = Some(emitted);
        assert_eq!(pacer.last_emission_ms, Some(emitted));
    }
}

#[test]
fn zero_interval_never_waits() {
    let mut pacer = Throttle::new(0);
    assert_eq!(pacer.wait(5), 0);
    assert_eq!(pacer.wait(5), 0);
    assert_eq!(pacer.wait(6), 0);
}
