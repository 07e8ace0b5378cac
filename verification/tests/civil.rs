use taktora::civil::iso8601_millis;

fn iso8601(epoch_seconds: f64) -> String {
    iso8601_millis((epoch_seconds * 1000.0).round() as i64)
}

#[test]
fn iso8601_formats_epoch() {
    assert_eq!(iso8601(1_782_661_500.75), "2026-06-28T15:45:00.750Z");
    assert_eq!(iso8601(0.0), "1970-01-01T00:00:00.000Z");
}

#[test]
fn instants_before_the_epoch_count_back() {
    assert_eq!(iso8601_millis(-1), "1969-12-31T23:59:59.999Z");
    assert_eq!(iso8601_millis(-86_400_000), "1969-12-31T00:00:00.000Z");
}

#[test]
fn leap_days_are_dated() {
    assert_eq!(iso8601_millis(951_782_400_000), "2000-02-29T00:00:00.000Z");
    assert_eq!(iso8601_millis(951_868_800_000), "2000-03-01T00:00:00.000Z");
    assert_eq!(iso8601_millis(4_107_542_400_000), "2100-03-01T00:00:00.000Z");
}

#[test]
fn years_are_padded_to_four_characters() {
    assert_eq!(iso8601_millis(-62_167_219_200_000), "0000-01-01T00:00:00.000Z");
    assert_eq!(iso8601_millis(-62_198_755_200_000), "-001-01-01T00:00:00.000Z");
    assert_eq!(iso8601_millis(253_402_300_800_000), "10000-01-01T00:00:00.000Z");
    assert_eq!(iso8601_millis(-59_011_459_200_000), "0100-01-01T00:00:00.000Z");
}

#[test]
fn extreme_instants_are_formatted() {
    assert!(iso8601_millis(i64::MAX).ends_with("Z"));
    assert!(iso8601_millis(i64::MIN).starts_with("-"));
}
