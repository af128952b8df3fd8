use twitcher::lines::extract_rates;
use twitcher::MetricError;

fn b(s: &str) -> Vec<u8> {
    s.as_bytes().to_vec()
}

#[test]
fn three_reports_yield_three_rates() {
    let out = b("INFO starting up\nINFO diagnostic: fps        :   10.000000   (avg 9.915221)\nINFO diagnostic: frame_time :  99.000000ms  (avg 100.1ms)\nINFO diagnostic: fps        :   20.000000   (avg 15.000000)\nINFO diagnostic: fps        :   30.000000   (avg 20.000000)\nINFO shutting down\n");
    let rates = extract_rates(&out).unwrap();
    assert_eq!(rates, vec![10000, 20000, 30000]);
}

#[test]
fn fractions_keep_three_digits() {
    let out = b("fps : 60.256789 (avg 60.1)\n");
    assert_eq!(extract_rates(&out).unwrap(), vec![60256]);
}

#[test]
fn whole_number_rate() {
    let out = b("fps : 144 (avg 140)\n");
    assert_eq!(extract_rates(&out).unwrap(), vec![144000]);
}

#[test]
fn lines_without_both_markers_are_skipped() {
    let out = b("fps without the other word: 10\navg without the marker: 20\nplain noise\n");
    assert_eq!(extract_rates(&out).unwrap(), Vec::<u64>::new());
}

#[test]
fn report_without_colon_is_malformed() {
    let out = b("fps 12.5 (avg 12)\n");
    assert_eq!(extract_rates(&out), Err(MetricError::MalformedReport));
}

#[test]
fn report_with_junk_rate_is_malformed() {
    let out = b("fps : twelve (avg 12)\n");
    assert_eq!(extract_rates(&out), Err(MetricError::MalformedReport));
}

#[test]
fn report_rate_too_large_is_rejected() {
    let out = b("fps : 99999999999 (avg 12)\n");
    assert_eq!(extract_rates(&out), Err(MetricError::ValueOutOfRange));
}

#[test]
fn one_bad_report_fails_the_whole_extraction() {
    let out = b("fps : 10 (avg 10)\nfps : broken (avg 10)\nfps : 30 (avg 20)\n");
    assert_eq!(extract_rates(&out), Err(MetricError::MalformedReport));
}

#[test]
fn carriage_returns_are_tolerated() {
    let out = b("fps : 10 (avg 10)\r\nfps : 20 (avg 15)\r\n");
    assert_eq!(extract_rates(&out).unwrap(), vec![10000, 20000]);
}

#[test]
fn empty_output_has_no_rates() {
    let out: Vec<u8> = Vec::new();
    assert_eq!(extract_rates(&out).unwrap(), Vec::<u64>::new());
}
