//! The time of day, written down.

use zeroboot::clock::rfc3339;

#[test]
fn times_are_written_as_rfc_3339_has_them() {
    assert_eq!(rfc3339(0), "1970-01-01T00:00:00Z");
    assert_eq!(rfc3339(86_399), "1970-01-01T23:59:59Z");
    assert_eq!(rfc3339(951_782_400), "2000-02-29T00:00:00Z");
    assert_eq!(rfc3339(951_868_800), "2000-03-01T00:00:00Z");
    assert_eq!(rfc3339(1_000_000_000), "2001-09-09T01:46:40Z");
    assert_eq!(rfc3339(1_735_689_599), "2024-12-31T23:59:59Z");
    assert_eq!(rfc3339(1_788_868_800), "2026-09-08T12:00:00Z");
    assert_eq!(rfc3339(4_107_542_400), "2100-03-01T00:00:00Z");
    assert_eq!(rfc3339(4_107_542_399), "2100-02-28T23:59:59Z");
    assert_eq!(rfc3339(253_402_300_800), "10000-01-01T00:00:00Z");
}

#[test]
fn stamps_sort_as_times_do() {
    let mut times: Vec<u64> = vec![
        0, 1, 59, 60, 3_599, 3_600, 86_399, 86_400, 951_782_399, 951_782_400, 951_868_800,
        1_000_000_000, 1_735_689_599, 1_735_689_600, 4_107_542_399, 4_107_542_400, 253_402_300_799,
    ];
    times.sort();
    for pair in times.windows(2) {
        let (a, b) = (rfc3339(pair[0]), rfc3339(pair[1]));
        assert!(a < b, "{a} {b}");
        assert_eq!((a.len(), b.len()), (20, 20));
    }
    assert_eq!(rfc3339(253_402_300_799), "9999-12-31T23:59:59Z");
}
