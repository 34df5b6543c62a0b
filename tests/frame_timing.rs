use minimp4::timing::{FrameClock, DEFAULT_FPS, VIDEO_TIME_SCALE};

#[test]
fn clock_at_an_even_rate() {
    let mut c = FrameClock::new(VIDEO_TIME_SCALE, 25).unwrap();
    for _ in 0..10 {
        assert_eq!(c.tick(), Some(3600));
    }
    assert_eq!(c.frames, 10);
    assert_eq!(c.elapsed, 36000);
}

#[test]
fn clock_carries_the_remainder() {
    // 90000 / 7 = 12857.14...
    let mut c = FrameClock::new(VIDEO_TIME_SCALE, 7).unwrap();
    let durations: Vec<u32> = (0..7).map(|_| c.tick().unwrap()).collect();
    assert_eq!(durations, vec![12857, 12857, 12857, 12857, 12857, 12857, 12858]);
    assert_eq!(c.elapsed, 90000);
    // a truncating division alone would drift by 1 tick a second
    let mut c = FrameClock::new(VIDEO_TIME_SCALE, 7).unwrap();
    let mut total: u64 = 0;
    for _ in 0..7000 {
        total += c.tick().unwrap() as u64;
    }
    assert_eq!(total, 90_000_000);
}

#[test]
fn clock_total_within_one_tick_of_rounded() {
    for fps in [1u32, 6, 7, 24, 25, 29, 30, 59, 60, 120, 1000] {
        let mut c = FrameClock::new(VIDEO_TIME_SCALE, fps).unwrap();
        let mut total: u64 = 0;
        for n in 1..=500u64 {
            total += c.tick().unwrap() as u64;
            let exact = n * VIDEO_TIME_SCALE as u64;
            let rounded = (2 * exact + fps as u64) / (2 * fps as u64);
            assert!(total <= rounded && rounded <= total + 1);
        }
    }
}

#[test]
fn clock_refuses_frames_shorter_than_a_tick() {
    assert!(FrameClock::new(VIDEO_TIME_SCALE, 0).is_none());
    assert!(FrameClock::new(VIDEO_TIME_SCALE, VIDEO_TIME_SCALE + 1).is_none());
    let mut c = FrameClock::new(VIDEO_TIME_SCALE, VIDEO_TIME_SCALE).unwrap();
    assert_eq!(c.tick(), Some(1));
    assert!(FrameClock::new(VIDEO_TIME_SCALE, DEFAULT_FPS).is_some());
}
