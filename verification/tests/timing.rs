use rtos_compat::clock::Clock;

#[test]
fn now_millis_counts_ticks_and_subticks() {
    // One millisecond per tick, one thousand hardware counts per
    // millisecond.
    let mut c = Clock::new(1, 1000, 0);
    assert_eq!(c.now_millis(0), 0);
    assert_eq!(c.now_millis(500), 0);
    assert_eq!(c.now_millis(1500), 1);
    c.on_tick(1000);
    assert_eq!(c.now_millis(1000), 1);
    assert_eq!(c.now_millis(3000), 3);
}

#[test]
fn now_millis_survives_counter_wraparound() {
    // The hardware counter sits just below its wrap point; readings taken
    // after the wrap must still move time forward, never backward.
    let start = u32::MAX - 400;
    let mut c = Clock::new(1, 1000, start);
    let t0 = c.now_millis(start);
    let t1 = c.now_millis(u32::MAX);
    // 599 counts past the wrap: 1000 counts total since the tick.
    let t2 = c.now_millis(599);
    assert!(t0 <= t1 && t1 <= t2);
    assert_eq!(t2, 1);
}

#[test]
fn now_millis_never_decreases_for_any_reading_sequence() {
    let mut c = Clock::new(10, 1, 0);
    let readings: [u32; 7] = [5, 0, u32::MAX, 17, 4_000_000_000, 3, 0];
    let mut last = 0u64;
    for (i, r) in readings.iter().enumerate() {
        if i % 2 == 0 {
            c.on_tick(*r);
        }
        let now = c.now_millis(*r);
        assert!(now >= last);
        last = now;
    }
}
