use minimp4::status::Minimp4Error;
use minimp4::timing::{DEFAULT_FPS, VIDEO_TIME_SCALE};
use minimp4::track::{FrameTiming, MuxError, Sample, TrackSummary, VideoTrack};

const SPS: [u8; 8] = [0, 0, 0, 1, 0x67, 0x42, 0x00, 0x1f];
const PPS: [u8; 8] = [0, 0, 0, 1, 0x68, 0xce, 0x3c, 0x80];
const IDR: [u8; 7] = [0, 0, 1, 0x65, 0x88, 0x84, 0x21];
const P_SLICE: [u8; 7] = [0, 0, 0, 1, 0x41, 0x9a, 0x22];
/// A second slice of the same picture (first_mb_in_slice != 0).
const P_SLICE_CONT: [u8; 8] = [0, 0, 0, 1, 0x41, 0x40, 0x11, 0x22];

fn stream(parts: &[&[u8]]) -> Vec<u8> {
    let mut v = Vec::new();
    for p in parts {
        v.extend_from_slice(p);
    }
    v
}

#[test]
fn frames_become_samples_at_a_rate() {
    let mut t = VideoTrack::new(1280, 720, false, "video", 48);
    let data = stream(&[&SPS, &PPS, &IDR, &P_SLICE]);
    let durs = t.write_frames(&data, FrameTiming::Rate(25)).unwrap();
    assert_eq!(durs, vec![3600, 3600, 3600, 3600]);
    assert_eq!(
        t.samples,
        vec![
            Sample { offset: 48, size: 8, duration: 3600, sync: true },
            Sample { offset: 56, size: 7, duration: 3600, sync: false },
        ]
    );
    assert_eq!(t.cursor, 63);
    assert_eq!(t.parameter_sets, vec![vec![0x67, 0x42, 0x00, 0x1f], vec![0x68, 0xce, 0x3c, 0x80]]);
    assert_eq!(
        t.close(),
        Ok(TrackSummary { sample_count: 2, duration: 7200, media_bytes: 15 })
    );
}

#[test]
fn slices_of_one_picture_share_a_sample() {
    let mut t = VideoTrack::new(1280, 720, false, "video", 0);
    let data = stream(&[&SPS, &PPS, &IDR, &P_SLICE, &P_SLICE_CONT, &P_SLICE]);
    let durs = t.write_frames(&data, FrameTiming::Duration(3003)).unwrap();
    assert_eq!(durs, vec![3003; 6]);
    let sizes: Vec<u64> = t.samples.iter().map(|s| s.size).collect();
    assert_eq!(sizes, vec![8, 7 + 8, 7]);
    let offsets: Vec<u64> = t.samples.iter().map(|s| s.offset).collect();
    assert_eq!(offsets, vec![0, 8, 23]);
    assert!(t.samples.iter().all(|s| s.duration == 3003));
}

#[test]
fn sync_flag_follows_key_slices() {
    let mut t = VideoTrack::new(640, 480, false, "video", 0);
    let data = stream(&[&SPS, &PPS, &IDR, &P_SLICE, &P_SLICE, &IDR, &P_SLICE]);
    t.write_frames(&data, FrameTiming::Rate(30)).unwrap();
    let sync: Vec<bool> = t.samples.iter().map(|s| s.sync).collect();
    assert_eq!(sync, vec![true, false, false, true, false]);
}

#[test]
fn repeated_parameter_sets_are_stored_once() {
    let mut t = VideoTrack::new(640, 480, false, "video", 0);
    for _ in 0..5 {
        let data = stream(&[&SPS, &PPS, &IDR]);
        t.write_frames(&data, FrameTiming::Rate(25)).unwrap();
    }
    assert_eq!(t.parameter_sets.len(), 2);
    assert_eq!(t.samples.len(), 5);
    assert!(!t.add_parameter_set(&[0x67, 0x42, 0x00, 0x1f]));
    assert!(t.add_parameter_set(&[0x67, 0x42, 0x00, 0x20]));
    assert_eq!(t.parameter_sets.len(), 3);
}

#[test]
fn offsets_increase_and_sizes_add_up() {
    let mut t = VideoTrack::new(640, 480, false, "video", 40);
    let mut written = 0u64;
    for i in 0..20 {
        let mut data = stream(&[&SPS, &PPS]);
        data.extend_from_slice(&[0, 0, 1, 0x41, 0x9a]);
        data.extend(std::iter::repeat(0x11u8).take(i + 1));
        written += (4 + 2 + i + 1) as u64;
        t.write_frames(&data, FrameTiming::Rate(25)).unwrap();
    }
    assert_eq!(t.samples.len(), 20);
    for w in t.samples.windows(2) {
        assert!(w[0].offset < w[1].offset);
        assert_eq!(w[0].offset + w[0].size, w[1].offset);
    }
    let total: u64 = t.samples.iter().map(|s| s.size).sum();
    assert_eq!(total, written);
    assert_eq!(t.cursor - t.mdat_start, written);
}

#[test]
fn rate_track_duration_tracks_elapsed_time() {
    let mut t = VideoTrack::new(640, 480, false, "video", 0);
    let mut data = stream(&[&SPS, &PPS, &IDR]);
    for _ in 0..99 {
        data.extend_from_slice(&P_SLICE);
    }
    t.write_frames(&data, FrameTiming::Rate(7)).unwrap();
    let total: u64 = t.samples.iter().map(|s| s.duration as u64).sum();
    let exact = 100 * VIDEO_TIME_SCALE as u64;
    assert_eq!(total, exact / 7);
    let rounded = (2 * exact + 7) / 14;
    assert!(total <= rounded && rounded <= total + 1);
}

#[test]
fn zero_frames_close_empty() {
    let mut t = VideoTrack::new(1280, 720, false, "video", 40);
    assert_eq!(
        t.close(),
        Ok(TrackSummary { sample_count: 0, duration: 0, media_bytes: 0 })
    );
    assert_eq!(t.close(), Err(MuxError::SessionClosed));
}

#[test]
fn zero_filled_buffer_is_refused_and_track_stays_empty() {
    let mut t = VideoTrack::new(1280, 720, false, "video", 40);
    assert_eq!(t.write_frames(&[0; 100], FrameTiming::Rate(DEFAULT_FPS)), Err(MuxError::MalformedStream));
    assert!(t.samples.is_empty());
    assert_eq!(t.close().unwrap().sample_count, 0);
}

#[test]
fn parameter_sets_alone_make_no_sample() {
    let mut t = VideoTrack::new(1280, 720, false, "video", 0);
    let durs = t.write_frames(&stream(&[&SPS, &PPS]), FrameTiming::Rate(25)).unwrap();
    assert_eq!(durs, vec![0, 0]);
    assert!(t.samples.is_empty());
    assert_eq!(t.parameter_sets.len(), 2);
}

#[test]
fn errors_leave_the_track_unchanged() {
    let mut t = VideoTrack::new(1280, 720, false, "video", 0);
    t.write_frames(&stream(&[&SPS, &PPS, &IDR]), FrameTiming::Rate(25)).unwrap();
    let unsupported = stream(&[&SPS, &[0, 0, 1, 0x18, 0x01], &P_SLICE]);
    assert_eq!(t.write_frames(&unsupported, FrameTiming::Rate(25)), Err(MuxError::UnsupportedCodec));
    let truncated = stream(&[&P_SLICE, &[0, 0, 1, 0x41]]);
    assert_eq!(t.write_frames(&truncated, FrameTiming::Rate(25)), Err(MuxError::MalformedStream));
    assert_eq!(t.write_frames(&P_SLICE, FrameTiming::Rate(0)), Err(MuxError::InvalidDuration));
    assert_eq!(t.write_frames(&P_SLICE, FrameTiming::Rate(90001)), Err(MuxError::InvalidDuration));
    assert_eq!(t.write_frames(&P_SLICE, FrameTiming::Duration(3000)), Err(MuxError::MixedTiming));
    assert_eq!(t.samples.len(), 1);
    assert_eq!(t.cursor, 8);
    assert_eq!(t.parameter_sets.len(), 2);
    t.close().unwrap();
    assert_eq!(t.write_frames(&P_SLICE, FrameTiming::Rate(25)), Err(MuxError::SessionClosed));
}

#[test]
fn explicit_durations_refuse_zero_and_rates() {
    let mut t = VideoTrack::new(1280, 720, true, "video", 0);
    assert_eq!(t.write_frames(&P_SLICE, FrameTiming::Duration(0)), Err(MuxError::InvalidDuration));
    let hevc = [0, 0, 1, 0x26, 0x01, 0xaf, 0x12];
    assert_eq!(t.write_frames(&hevc, FrameTiming::Duration(1500)), Ok(vec![1500]));
    assert_eq!(t.samples, vec![Sample { offset: 0, size: 8, duration: 1500, sync: true }]);
    assert_eq!(t.write_frames(&hevc, FrameTiming::Rate(25)), Err(MuxError::MixedTiming));
}

#[test]
fn offsets_beyond_64_bits_are_refused() {
    let mut t = VideoTrack::new(1280, 720, false, "video", u64::MAX - 10);
    assert_eq!(t.write_frames(&stream(&[&IDR, &IDR]), FrameTiming::Rate(25)), Err(MuxError::SinkWriteError));
    assert_eq!(t.write_frames(&IDR, FrameTiming::Rate(25)).map(|d| d.len()), Ok(1));
    assert_eq!(t.cursor, u64::MAX - 2);
}

#[test]
fn errors_map_to_engine_statuses() {
    assert_eq!(MuxError::SinkWriteError.to_engine_error(), Minimp4Error::FileWriteError);
    assert_eq!(MuxError::MalformedStream.to_engine_error(), Minimp4Error::BadArguments);
    assert_eq!(MuxError::SessionClosed.to_engine_error(), Minimp4Error::BadArguments);
}

#[test]
fn track_keeps_its_name_and_size() {
    let t = VideoTrack::new(1280, 720, false, "h264 stream", 40);
    assert_eq!(t.name, "h264 stream");
    assert_eq!((t.width, t.height, t.is_hevc), (1280, 720, false));
    assert!(t.samples.is_empty() && t.parameter_sets.is_empty());
}

#[test]
fn failed_session_refuses_writes() {
    let mut t = VideoTrack::new(1280, 720, false, "video", 0);
    t.write_frames(&stream(&[&SPS, &PPS, &IDR]), FrameTiming::Rate(25)).unwrap();
    t.mark_failed();
    assert_eq!(t.write_frames(&P_SLICE, FrameTiming::Rate(25)), Err(MuxError::SinkWriteError));
    assert_eq!(t.samples.len(), 1);
}

#[test]
fn each_sample_lasts_its_share_of_elapsed_time() {
    let mut t = VideoTrack::new(640, 480, false, "video", 0);
    t.write_frames(&stream(&[&SPS, &PPS, &IDR, &P_SLICE, &P_SLICE]), FrameTiming::Rate(7)).unwrap();
    t.write_frames(&stream(&[&P_SLICE, &P_SLICE, &P_SLICE, &P_SLICE]), FrameTiming::Rate(7)).unwrap();
    let durations: Vec<u32> = t.samples.iter().map(|s| s.duration).collect();
    let expected: Vec<u32> = (0..7u64).map(|n| ((n + 1) * 90000 / 7 - n * 90000 / 7) as u32).collect();
    assert_eq!(durations, expected);
    assert!(durations.iter().all(|&d| d == 90000 / 7 || d == 90000 / 7 + 1));
}

#[test]
fn a_new_rate_starts_a_fresh_clock() {
    let mut t = VideoTrack::new(640, 480, false, "video", 0);
    t.write_frames(&stream(&[&SPS, &PPS, &IDR, &P_SLICE]), FrameTiming::Rate(7)).unwrap();
    t.write_frames(&stream(&[&P_SLICE, &P_SLICE]), FrameTiming::Rate(25)).unwrap();
    t.write_frames(&P_SLICE, FrameTiming::Rate(7)).unwrap();
    let durations: Vec<u32> = t.samples.iter().map(|s| s.duration).collect();
    assert_eq!(durations, vec![12857, 12857, 3600, 3600, 12857]);
    assert_eq!(t.write_frames(&P_SLICE, FrameTiming::Duration(3000)), Err(MuxError::MixedTiming));
}
