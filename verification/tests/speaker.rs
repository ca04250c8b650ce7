use bladio::tts::Speaker;
use bladio::types::Samp;

#[test]
fn drain_rebuilds_chunks_with_coprime_sizes() {
    // Chunks of 7 samples pulled 5 at a time: the concatenated outputs
    // rebuild the chunk stream exactly, across every chunk boundary.
    let mut chunks: Vec<Vec<Samp>> = Vec::new();
    let mut expected: Vec<Samp> = Vec::new();
    let mut v: i16 = 1;
    for _ in 0..4 {
        let mut c = Vec::new();
        for _ in 0..7 {
            c.push(v);
            expected.push(v);
            v += 1;
        }
        chunks.push(c);
    }
    let mut sp = Speaker::new();
    assert!(!sp.is_speaking());
    sp.say(chunks);
    assert!(sp.is_speaking());
    let mut out: Vec<Samp> = Vec::new();
    loop {
        let mut buf: Vec<Samp> = vec![0; 5];
        let n = sp.next(&mut buf, 0);
        out.extend_from_slice(&buf[..n]);
        if n < 5 {
            break;
        }
    }
    assert_eq!(out, expected);
    assert!(!sp.is_speaking());
}

#[test]
fn next_fills_only_the_requested_window() {
    // With an offset, only buf[from..from + n] is written.
    let mut sp = Speaker::new();
    sp.say(vec![vec![10, 20, 30]]);
    let mut buf: Vec<Samp> = vec![-1; 6];
    let n = sp.next(&mut buf, 2);
    assert_eq!(n, 3);
    assert_eq!(buf, vec![-1, -1, 10, 20, 30, -1]);
}

#[test]
fn zero_return_is_the_exhaustion_signal() {
    // After the last chunk is consumed with an exact fit, the adapter still
    // reports speaking until one more pull returns 0.
    let mut sp = Speaker::new();
    sp.say(vec![vec![1, 2]]);
    let mut buf: Vec<Samp> = vec![0; 2];
    assert_eq!(sp.next(&mut buf, 0), 2);
    assert!(sp.is_speaking());
    let mut buf: Vec<Samp> = vec![0; 2];
    assert_eq!(sp.next(&mut buf, 0), 0);
    assert!(!sp.is_speaking());
}

#[test]
fn leftover_is_drained_before_new_chunks() {
    // A chunk split by a small request is continued, in order, by the next
    // request, before the following chunk starts.
    let mut sp = Speaker::new();
    sp.say(vec![vec![1, 2, 3, 4, 5], vec![6, 7]]);
    let mut buf: Vec<Samp> = vec![0; 3];
    assert_eq!(sp.next(&mut buf, 0), 3);
    assert_eq!(buf, vec![1, 2, 3]);
    let mut buf: Vec<Samp> = vec![0; 3];
    assert_eq!(sp.next(&mut buf, 0), 3);
    assert_eq!(buf, vec![4, 5, 6]);
    let mut buf: Vec<Samp> = vec![0; 3];
    assert_eq!(sp.next(&mut buf, 0), 1);
    assert_eq!(buf[0], 7);
}

#[test]
fn empty_utterance_ends_at_once() {
    let mut sp = Speaker::new();
    sp.say(Vec::new());
    assert!(sp.is_speaking());
    let mut buf: Vec<Samp> = vec![0; 4];
    assert_eq!(sp.next(&mut buf, 0), 0);
    assert!(!sp.is_speaking());
}
