use compressor::compressor::{Algo, RawParameters};
use compressor::fixed::SCALE;
use compressor::Compressor;

fn snappy() -> RawParameters {
    RawParameters {
        threshold: SCALE / 2,
        ratio: 2 * SCALE,
        steepness: 10_000 * SCALE,
        attack: 1,
        release: 140_000,
        gain: SCALE,
    }
}

#[test]
fn engines_grow_with_the_channel_count() {
    let mut c = Compressor::default();
    assert_eq!(c.channel_count(), 0);
    let mut buffer = vec![vec![0, 0], vec![0, 0, 0], vec![0]];
    let params = vec![snappy(), snappy(), snappy()];
    c.process_buffer(&mut buffer, &params).unwrap();
    // Channels are added lazily and never removed.
    assert_eq!(c.channel_count(), 3);
}

#[test]
fn buffer_processing_matches_per_sample_processing() {
    let mut c = Compressor::default();
    let mut buffer = vec![
        vec![SCALE, -SCALE],
        vec![300_000, 900_000],
        vec![0, -650_000],
    ];
    let params = vec![snappy(), snappy(), snappy()];
    c.process_buffer(&mut buffer, &params).unwrap();

    let mut left = Algo::new();
    let mut right = Algo::new();
    let inputs: [(i64, i64); 3] = [(SCALE, -SCALE), (300_000, 900_000), (0, -650_000)];
    for (f, &(l, r)) in inputs.iter().enumerate() {
        let mut ls = l;
        let mut rs = r;
        left.process_samples(&mut ls, snappy(), None).unwrap();
        right.process_samples(&mut rs, snappy(), None).unwrap();
        assert_eq!(buffer[f][0], ls);
        assert_eq!(buffer[f][1], rs);
    }
    assert_eq!(c.envelope_of(0), left.get_envelope());
    assert_eq!(c.envelope_of(1), right.get_envelope());
}

#[test]
fn channels_are_independent() {
    let mut c = Compressor::default();
    let mut buffer = vec![vec![SCALE, 0], vec![SCALE, 0]];
    let params = vec![snappy(), snappy()];
    c.process_buffer(&mut buffer, &params).unwrap();
    // A loud left channel never leaks into a silent right channel.
    assert_eq!(buffer[0][0], 750_000);
    assert_eq!(buffer[1][0], 750_000);
    assert_eq!(buffer[0][1], 0);
    assert_eq!(buffer[1][1], 0);
    assert_eq!(c.envelope_of(0), SCALE);
    assert_eq!(c.envelope_of(1), 0);
}

#[test]
fn engine_state_persists_across_buffers() {
    let mut c = Compressor::default();
    let params = vec![snappy()];
    let mut first = vec![vec![SCALE]];
    c.process_buffer(&mut first, &params).unwrap();
    assert_eq!(c.envelope_of(0), SCALE);
    // The next buffer starts from the envelope the last one left behind:
    // one silent sample releases by exactly 1e12 / (48000 * 140000) = 148.
    let mut second = vec![vec![0]];
    c.process_buffer(&mut second, &params).unwrap();
    assert_eq!(c.envelope_of(0), SCALE - 148);
}

#[test]
fn empty_buffer_is_a_no_op() {
    let mut c = Compressor::default();
    let mut buffer: Vec<Vec<i64>> = Vec::new();
    let params: Vec<RawParameters> = Vec::new();
    c.process_buffer(&mut buffer, &params).unwrap();
    assert_eq!(c.channel_count(), 0);
}
