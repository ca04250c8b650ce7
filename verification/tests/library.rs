use bladio::sample_library::{DecodedClip, SampleLibrary};
use bladio::short_fill::ShortFillGate;
use bladio::types::{scale_sample, Samp, SAMPLE_RATE};

#[test]
fn load_keeps_valid_clips_in_order() {
    let clips = vec![
        DecodedClip { channels: 1, sample_rate: SAMPLE_RATE, samples: vec![1, 2] },
        DecodedClip { channels: 2, sample_rate: SAMPLE_RATE, samples: vec![3] },
        DecodedClip { channels: 1, sample_rate: 44100, samples: vec![4] },
        DecodedClip { channels: 1, sample_rate: SAMPLE_RATE, samples: vec![5, 6, 7] },
    ];
    let lib = SampleLibrary::new(clips);
    // The stereo clip and the wrong-rate clip are skipped, the rest kept in
    // order.
    assert_eq!(lib.len(), 2);
    assert_eq!(lib.get(0).as_slice(), &[1, 2]);
    assert_eq!(lib.get(1).as_slice(), &[5, 6, 7]);
}

#[test]
fn load_of_nothing_is_empty() {
    let lib = SampleLibrary::new(Vec::new());
    assert_eq!(lib.len(), 0);
}

#[test]
fn scaling_is_exact_and_saturating() {
    // Amplitude is in thousandths; magnitudes round down; the rails clamp.
    let id: Vec<(Samp, Samp)> = vec![(0, 0), (1, 1), (-1, -1), (32767, 32767), (-32768, -32768)];
    for (s, want) in id {
        assert_eq!(scale_sample(1000, s), want);
    }
    assert_eq!(scale_sample(300, 10), 3);
    assert_eq!(scale_sample(500, 5), 2);
    assert_eq!(scale_sample(500, -5), -2);
    assert_eq!(scale_sample(1200, 1000), 1200);
    assert_eq!(scale_sample(2000, 30000), 32767);
    assert_eq!(scale_sample(2000, -30000), -32768);
    assert_eq!(scale_sample(0, 12345), 0);
    assert_eq!(scale_sample(1000, i16::MIN), i16::MIN);
    assert_eq!(scale_sample(999, i16::MIN), -32735);
}

#[test]
fn three_consecutive_short_fills_end_the_stream() {
    let mut gate = ShortFillGate::new();
    assert!(!gate.record(3, 4));
    assert!(!gate.record(3, 4));
    // A full fill resets the count.
    assert!(!gate.record(4, 4));
    assert!(!gate.record(0, 4));
    assert!(!gate.record(1, 4));
    assert!(gate.record(2, 4));
}
