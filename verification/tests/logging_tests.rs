use compressor::compressor::{Algo, RawParameters};
use compressor::fixed::SCALE;
use compressor::logging::SampleLogger;

#[test]
fn write_accepts_balanced_series() {
    let mut logger = SampleLogger::new(10);
    assert_eq!(logger.write("sample", 1), Ok(()));
    assert_eq!(logger.write("envelope", 2), Ok(()));
    assert_eq!(logger.write("sample", 3), Ok(()));
    assert_eq!(logger.write("envelope", 4), Ok(()));
}

#[test]
fn write_reports_exhausted_budget() {
    let mut logger = SampleLogger::new(1);
    assert_eq!(logger.write("sample", 10), Ok(()));
    assert_eq!(logger.write("sample", 20), Err("Seen enough samples."));
}

#[test]
fn budget_zero_rejects_the_first_sample() {
    let mut logger = SampleLogger::new(0);
    assert_eq!(logger.write("sample", 10), Err("Seen enough samples."));
}

#[test]
fn write_reports_imbalance() {
    let mut logger = SampleLogger::new(100);
    assert_eq!(logger.write("sample", 1), Ok(()));
    assert_eq!(logger.write("left", 2), Ok(()));
    assert_eq!(logger.write("sample", 3), Ok(()));
    // "sample" now holds three values while "left" holds one: the mean row
    // is (3 + 1) / 2 = 2, and a column of length 1 is neither 2 nor 3.
    assert_eq!(
        logger.write("sample", 4),
        Err("Element added to list caused imbalance.")
    );
}

#[test]
fn write_demands_a_sample_series_beyond_the_first_row() {
    let mut logger = SampleLogger::new(100);
    assert_eq!(logger.write("envelope", 1), Ok(()));
    assert_eq!(
        logger.write("envelope", 2),
        Err("First sample iteration has been added but no key 'sample' is present.")
    );
}

#[test]
fn debug_headers_keep_insertion_order() {
    let mut logger = SampleLogger::new(100);
    logger.write("sample", 1).unwrap();
    logger.write("envelope", 2).unwrap();
    logger.write("mix", 3).unwrap();
    let headers = logger.debug_headers();
    assert_eq!(headers, vec![
        String::from("sample"),
        String::from("envelope"),
        String::from("mix"),
    ]);
}

#[test]
fn debug_rows_transpose_the_columns() {
    let mut logger = SampleLogger::new(100);
    logger.write("sample", 1).unwrap();
    logger.write("envelope", 10).unwrap();
    logger.write("sample", 2).unwrap();
    logger.write("envelope", 20).unwrap();
    let rows = logger.debug_rows();
    assert_eq!(rows, vec![vec![Some(1), Some(10)], vec![Some(2), Some(20)]]);
}

#[test]
fn debug_rows_pad_short_columns() {
    let mut logger = SampleLogger::new(100);
    logger.write("sample", 1).unwrap();
    logger.write("envelope", 10).unwrap();
    logger.write("sample", 2).unwrap();
    let rows = logger.debug_rows();
    assert_eq!(rows, vec![vec![Some(1), Some(10)], vec![Some(2), None]]);
}

#[test]
fn processing_records_the_named_series() {
    let mut logger = SampleLogger::new(16);
    let mut a = Algo::new();
    let p = RawParameters {
        threshold: SCALE / 2,
        ratio: 2 * SCALE,
        steepness: 10_000 * SCALE,
        attack: 1,
        release: 140_000,
        gain: SCALE,
    };
    let mut s: i64 = SCALE;
    a.process_samples(&mut s, p, Some(&mut logger)).unwrap();
    assert_eq!(s, 750_000);
    assert_eq!(logger.debug_headers(), vec![
        String::from("sample"),
        String::from("sample.abs()"),
        String::from("envelope"),
        String::from("threshold"),
        String::from("-threshold"),
        String::from("mix"),
        String::from("after"),
    ]);
    let rows = logger.debug_rows();
    assert_eq!(rows, vec![vec![
        Some(SCALE),
        Some(SCALE),
        Some(0),
        Some(SCALE / 2),
        Some(-SCALE / 2),
        Some(SCALE),
        Some(750_000),
    ]]);
}

#[test]
fn logger_error_before_processing_leaves_state_untouched() {
    let mut logger = SampleLogger::new(0);
    let mut a = Algo::new();
    let p = RawParameters {
        threshold: SCALE / 2,
        ratio: 2 * SCALE,
        steepness: 10_000 * SCALE,
        attack: 1,
        release: 140_000,
        gain: SCALE,
    };
    let mut s: i64 = SCALE;
    let r = a.process_samples(&mut s, p, Some(&mut logger));
    assert_eq!(r, Err("Seen enough samples."));
    // The failing write happened before any processing: the sample and the
    // envelope still hold their old values.
    assert_eq!(s, SCALE);
    assert_eq!(a.get_envelope(), 0);
}

#[test]
fn budget_error_on_second_sample_leaves_it_unprocessed() {
    // A budget of exactly one sample admits all writes of the first sample;
    // the second sample's very first write trips the budget, so the second
    // call fails before processing and hands the sample back unchanged.
    let mut logger = SampleLogger::new(1);
    let mut a = Algo::new();
    let p = RawParameters {
        threshold: SCALE / 2,
        ratio: 2 * SCALE,
        steepness: 10_000 * SCALE,
        attack: 1,
        release: 140_000,
        gain: SCALE,
    };
    let mut first: i64 = SCALE;
    a.process_samples(&mut first, p, Some(&mut logger)).unwrap();
    assert_eq!(first, 750_000);
    let mut second: i64 = SCALE;
    let r = a.process_samples(&mut second, p, Some(&mut logger));
    assert_eq!(r, Err("Seen enough samples."));
    assert_eq!(second, SCALE);
}
