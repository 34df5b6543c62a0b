use minimp4::audio::{audio_frames_due, AudioParams, Chunk, MediaKind, MediaLayout};

#[test]
fn audio_params_are_kept() {
    let p = AudioParams::new(128000, 44100, 2);
    assert_eq!((p.bit_rate, p.sample_rate, p.channel_count), (128000, 44100, 2));
}

#[test]
fn audio_due_by_video_end() {
    // one AAC frame at 44.1 kHz lasts 1024 / 44100 s = 2089.8 video ticks
    assert_eq!(audio_frames_due(0, 0, 1024, 44100), 1);
    assert_eq!(audio_frames_due(3600, 0, 1024, 44100), 2);
    assert_eq!(audio_frames_due(3600, 2, 1024, 44100), 0);
    assert_eq!(audio_frames_due(90000, 0, 1024, 44100), 44);
    assert_eq!(audio_frames_due(90000, 40, 1024, 44100), 4);
    assert_eq!(audio_frames_due(90000, 50, 1024, 44100), 0);
    // at 48 kHz a frame lasts exactly 1920 ticks: a frame starting at the end is due
    assert_eq!(audio_frames_due(3840, 0, 1024, 48000), 3);
}

#[test]
fn chunks_alternate_between_tracks() {
    let mut l = MediaLayout::new(40);
    assert_eq!(l.append_sample(MediaKind::Video, 100), Some(40));
    assert_eq!(l.append_sample(MediaKind::Audio, 10), Some(140));
    assert_eq!(l.append_sample(MediaKind::Audio, 12), Some(150));
    assert_eq!(l.append_sample(MediaKind::Video, 50), Some(162));
    assert_eq!(l.append_sample(MediaKind::Audio, 8), Some(212));
    assert_eq!(
        l.chunks,
        vec![
            Chunk { kind: MediaKind::Video, offset: 40, size: 100, samples: 1 },
            Chunk { kind: MediaKind::Audio, offset: 140, size: 22, samples: 2 },
            Chunk { kind: MediaKind::Video, offset: 162, size: 50, samples: 1 },
            Chunk { kind: MediaKind::Audio, offset: 212, size: 8, samples: 1 },
        ]
    );
    for w in l.chunks.windows(2) {
        assert_ne!(w[0].kind, w[1].kind);
        assert!(w[0].offset + w[0].size <= w[1].offset);
    }
    assert_eq!(l.cursor, 220);
}

#[test]
fn layout_refuses_offsets_beyond_64_bits() {
    let mut l = MediaLayout::new(u64::MAX - 5);
    assert_eq!(l.append_sample(MediaKind::Video, 10), None);
    assert!(l.chunks.is_empty());
    assert_eq!(l.append_sample(MediaKind::Video, 5), Some(u64::MAX - 5));
}
