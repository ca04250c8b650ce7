use std::sync::mpsc::channel;

use bladio::announce_channel::{AnnounceChannel, AnnounceEvent};
use bladio::sample_library::{DecodedClip, SampleLibrary};
use bladio::types::{Samp, SAMPLE_RATE};

fn one_clip_library(samples: Vec<Samp>) -> SampleLibrary {
    SampleLibrary::new(vec![DecodedClip { channels: 1, sample_rate: SAMPLE_RATE, samples }])
}

fn ramp(len: usize) -> Vec<Samp> {
    let mut v = Vec::new();
    let mut i: i16 = 1;
    for _ in 0..len {
        v.push(i);
        i += 1;
    }
    v
}

#[test]
fn delay_effect_finish_scenario() {
    // One clip of 50 samples, cues [Delay(100), Effect at full amplitude,
    // Finish], pulled 40 samples at a time.
    let clip = ramp(50);
    let lib = one_clip_library(clip.clone());
    let (tx, rx) = channel();
    tx.send(AnnounceEvent::Delay(100)).unwrap();
    tx.send(AnnounceEvent::Thwack(1000)).unwrap();
    tx.send(AnnounceEvent::Finish).unwrap();
    let mut ch = AnnounceChannel::new(rx, lib, 7);

    let mut buf: Vec<Samp> = vec![99; 40];
    // Call 1: 40 silent samples (60 wait remaining).
    assert_eq!(ch.next(&mut buf), 40);
    assert!(buf.iter().all(|&s| s == 0));
    // Call 2: 40 silent samples (20 wait remaining).
    let mut buf: Vec<Samp> = vec![99; 40];
    assert_eq!(ch.next(&mut buf), 40);
    assert!(buf.iter().all(|&s| s == 0));
    // Call 3: 20 silent samples, then the first 20 effect samples.
    let mut buf: Vec<Samp> = vec![99; 40];
    assert_eq!(ch.next(&mut buf), 40);
    assert!(buf[..20].iter().all(|&s| s == 0));
    assert_eq!(&buf[20..40], &clip[..20]);
    // Call 4: the remaining 30 effect samples, then Finish: under-filled.
    let mut buf: Vec<Samp> = vec![99; 40];
    assert_eq!(ch.next(&mut buf), 30);
    assert_eq!(&buf[..30], &clip[20..50]);
    assert_eq!(&buf[30..], &[99; 10]);
    // Call 5: finished, nothing more.
    let mut buf: Vec<Samp> = vec![99; 40];
    assert_eq!(ch.next(&mut buf), 0);
    assert_eq!(&buf[..], &[99; 40]);
}

#[test]
fn delay_total_is_partition_independent() {
    // Delay(100) drained one sample at a time emits exactly 100 silent
    // samples, just as two pulls of 50 would.
    let lib = one_clip_library(ramp(3));
    let (tx, rx) = channel();
    tx.send(AnnounceEvent::Delay(100)).unwrap();
    tx.send(AnnounceEvent::Finish).unwrap();
    let mut ch = AnnounceChannel::new(rx, lib, 1);
    let mut total = 0usize;
    loop {
        let mut buf: Vec<Samp> = vec![5; 1];
        let n = ch.next(&mut buf);
        if n == 0 {
            break;
        }
        assert_eq!(buf[0], 0);
        total += n;
    }
    assert_eq!(total, 100);

    let lib = one_clip_library(ramp(3));
    let (tx, rx) = channel();
    tx.send(AnnounceEvent::Delay(100)).unwrap();
    tx.send(AnnounceEvent::Finish).unwrap();
    let mut ch = AnnounceChannel::new(rx, lib, 1);
    let mut buf: Vec<Samp> = vec![5; 50];
    assert_eq!(ch.next(&mut buf), 50);
    let mut buf: Vec<Samp> = vec![5; 50];
    assert_eq!(ch.next(&mut buf), 50);
    let mut buf: Vec<Samp> = vec![5; 50];
    assert_eq!(ch.next(&mut buf), 0);
}

#[test]
fn split_call_equals_single_call() {
    // The same cue stream pulled as 64+36 samples yields sample-for-sample
    // what one pull of 100 yields.
    let cues = |tx: &std::sync::mpsc::Sender<AnnounceEvent>| {
        tx.send(AnnounceEvent::Delay(30)).unwrap();
        tx.send(AnnounceEvent::Thwack(1000)).unwrap();
        tx.send(AnnounceEvent::Delay(10)).unwrap();
        tx.send(AnnounceEvent::Finish).unwrap();
    };

    let lib = one_clip_library(ramp(25));
    let (tx, rx) = channel();
    cues(&tx);
    let mut ch = AnnounceChannel::new(rx, lib, 3);
    let mut whole: Vec<Samp> = vec![77; 100];
    let n_whole = ch.next(&mut whole);

    let lib = one_clip_library(ramp(25));
    let (tx, rx) = channel();
    cues(&tx);
    let mut ch = AnnounceChannel::new(rx, lib, 3);
    let mut first: Vec<Samp> = vec![77; 64];
    let n1 = ch.next(&mut first);
    let mut second: Vec<Samp> = vec![77; 36];
    let n2 = ch.next(&mut second);

    assert_eq!(n_whole, n1 + n2);
    let mut split: Vec<Samp> = Vec::new();
    split.extend_from_slice(&first[..n1]);
    split.extend_from_slice(&second[..n2]);
    assert_eq!(&whole[..n_whole], &split[..]);
}

#[test]
fn effect_is_scaled_clip() {
    // Effect playback is the clip, elementwise scaled, saturating at the
    // rails: amplitude 1200 thousandths boosts by a factor 1.2.
    let clip: Vec<Samp> = vec![1000, -1000, 5, -5, 30000, -30000];
    let lib = one_clip_library(clip);
    let (tx, rx) = channel();
    tx.send(AnnounceEvent::Thwack(1200)).unwrap();
    tx.send(AnnounceEvent::Finish).unwrap();
    let mut ch = AnnounceChannel::new(rx, lib, 11);
    let mut buf: Vec<Samp> = vec![0; 16];
    let n = ch.next(&mut buf);
    assert_eq!(n, 6);
    assert_eq!(&buf[..6], &[1200, -1200, 6, -6, 32767, -32768]);
}

#[test]
fn effect_comes_from_exactly_one_clip() {
    // With several clips, an effect plays one whole clip — never a mixture,
    // never data from outside the library.
    let a: Vec<Samp> = vec![11, 12, 13];
    let b: Vec<Samp> = vec![21, 22];
    let lib = SampleLibrary::new(vec![
        DecodedClip { channels: 1, sample_rate: SAMPLE_RATE, samples: a.clone() },
        DecodedClip { channels: 1, sample_rate: SAMPLE_RATE, samples: b.clone() },
    ]);
    let (tx, rx) = channel();
    tx.send(AnnounceEvent::Thwack(1000)).unwrap();
    tx.send(AnnounceEvent::Finish).unwrap();
    let mut ch = AnnounceChannel::new(rx, lib, 42);
    let mut buf: Vec<Samp> = vec![0; 8];
    let n = ch.next(&mut buf);
    let got = &buf[..n];
    assert!(got == &a[..] || got == &b[..]);
}

#[test]
fn beat_pauses_then_finishes() {
    // A Beat is a fixed pause of BEAT_LENGTH silent samples.
    let lib = one_clip_library(ramp(3));
    let (tx, rx) = channel();
    tx.send(AnnounceEvent::Beat).unwrap();
    tx.send(AnnounceEvent::Finish).unwrap();
    let mut ch = AnnounceChannel::new(rx, lib, 1);
    let mut buf: Vec<Samp> = vec![9; 2000];
    let n = ch.next(&mut buf);
    assert_eq!(n as u64, bladio::announce_channel::BEAT_LENGTH);
    assert!(buf[..n].iter().all(|&s| s == 0));
}

#[test]
fn message_plays_speech_chunks_in_order() {
    // A Message cue drains the utterance's chunks gaplessly, in order.
    let lib = one_clip_library(ramp(3));
    let (tx, rx) = channel();
    let chunks: Vec<Vec<Samp>> = vec![vec![1, 2, 3], vec![4], vec![], vec![5, 6, 7, 8, 9]];
    tx.send(AnnounceEvent::Message(chunks)).unwrap();
    tx.send(AnnounceEvent::Finish).unwrap();
    let mut ch = AnnounceChannel::new(rx, lib, 1);
    let mut out: Vec<Samp> = Vec::new();
    loop {
        let mut buf: Vec<Samp> = vec![0; 4];
        let n = ch.next(&mut buf);
        out.extend_from_slice(&buf[..n]);
        if n < 4 {
            break;
        }
    }
    assert_eq!(out, vec![1, 2, 3, 4, 5, 6, 7, 8, 9]);
}

#[test]
fn finish_makes_every_later_call_return_zero() {
    let lib = one_clip_library(ramp(3));
    let (tx, rx) = channel();
    tx.send(AnnounceEvent::Finish).unwrap();
    drop(tx);
    let mut ch = AnnounceChannel::new(rx, lib, 1);
    for _ in 0..4 {
        let mut buf: Vec<Samp> = vec![1; 8];
        assert_eq!(ch.next(&mut buf), 0);
        assert_eq!(&buf[..], &[1; 8]);
    }
}

#[test]
fn closed_queue_acts_as_finish() {
    // Dropping the sender ends the stream exactly as an explicit Finish.
    let lib = one_clip_library(ramp(3));
    let (tx, rx) = channel();
    tx.send(AnnounceEvent::Delay(5)).unwrap();
    drop(tx);
    let mut ch = AnnounceChannel::new(rx, lib, 1);
    let mut buf: Vec<Samp> = vec![4; 10];
    assert_eq!(ch.next(&mut buf), 5);
    assert!(buf[..5].iter().all(|&s| s == 0));
    let mut buf: Vec<Samp> = vec![4; 10];
    assert_eq!(ch.next(&mut buf), 0);
}

#[test]
fn zero_length_cues_cost_nothing() {
    // A Delay(0) and an effect from an empty clip emit no samples and do not
    // stall the stream.
    let lib = one_clip_library(Vec::new());
    let (tx, rx) = channel();
    tx.send(AnnounceEvent::Delay(0)).unwrap();
    tx.send(AnnounceEvent::Thwack(1000)).unwrap();
    tx.send(AnnounceEvent::Delay(7)).unwrap();
    tx.send(AnnounceEvent::Finish).unwrap();
    let mut ch = AnnounceChannel::new(rx, lib, 1);
    let mut buf: Vec<Samp> = vec![2; 4];
    assert_eq!(ch.next(&mut buf), 4);
    assert_eq!(&buf[..], &[0; 4]);
    let mut buf: Vec<Samp> = vec![2; 4];
    assert_eq!(ch.next(&mut buf), 3);
    assert_eq!(&buf[..3], &[0; 3]);
    let mut buf: Vec<Samp> = vec![2; 4];
    assert_eq!(ch.next(&mut buf), 0);
}
