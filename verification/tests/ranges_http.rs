//! Range resolution over the 54-byte fixture the range responder serves.

use webm_streamer::ranges::{resolve_range, HttpRange, RangeError, RangeSpan};

#[test]
fn test_full_response() {
    let span = resolve_range(None, Some(54), 10 * 1024 * 1024).unwrap();
    assert_eq!(span, RangeSpan { start: 0, end_excl: 54, partial: false });
    assert_eq!(span.end_excl - span.start, 54);
}

#[test]
fn test_partial_response_1() {
    // bytes=0-29
    let span = resolve_range(Some(HttpRange { start: 0, end: Some(29) }), Some(54), 10 * 1024 * 1024)
        .unwrap();
    assert_eq!(span, RangeSpan { start: 0, end_excl: 30, partial: true });
    assert_eq!(span.end_excl - span.start, 30);
}

#[test]
fn test_partial_response_2() {
    // bytes=30-53
    let span = resolve_range(
        Some(HttpRange { start: 30, end: Some(53) }),
        Some(54),
        10 * 1024 * 1024,
    )
    .unwrap();
    assert_eq!(span, RangeSpan { start: 30, end_excl: 54, partial: true });
    assert_eq!(span.end_excl - span.start, 24);
}

#[test]
fn test_unbounded_start_response() {
    // bytes=-20: the header layer turns the suffix into start 34, open end.
    let span = resolve_range(Some(HttpRange { start: 34, end: None }), Some(54), 10 * 1024 * 1024)
        .unwrap();
    assert_eq!(span, RangeSpan { start: 34, end_excl: 54, partial: true });
    assert_eq!(span.end_excl - span.start, 20);
}

#[test]
fn test_unbounded_end_response() {
    // bytes=40-
    let span = resolve_range(Some(HttpRange { start: 40, end: None }), Some(54), 10 * 1024 * 1024)
        .unwrap();
    assert_eq!(span, RangeSpan { start: 40, end_excl: 54, partial: true });
    assert_eq!(span.end_excl - span.start, 14);
}

#[test]
fn test_one_byte_response() {
    // bytes=30-30
    let span = resolve_range(
        Some(HttpRange { start: 30, end: Some(30) }),
        Some(54),
        10 * 1024 * 1024,
    )
    .unwrap();
    assert_eq!(span, RangeSpan { start: 30, end_excl: 31, partial: true });
    assert_eq!(span.end_excl - span.start, 1);
}

#[test]
fn test_invalid_range() {
    // bytes=30-29
    let err = resolve_range(
        Some(HttpRange { start: 30, end: Some(29) }),
        Some(54),
        10 * 1024 * 1024,
    )
    .unwrap_err();
    assert_eq!(err, RangeError::Unsatisfiable);
}

#[test]
fn test_range_end_exceed_length() {
    // bytes=30-99
    let err = resolve_range(
        Some(HttpRange { start: 30, end: Some(99) }),
        Some(54),
        10 * 1024 * 1024,
    )
    .unwrap_err();
    assert_eq!(err, RangeError::Unsatisfiable);
}

#[test]
fn test_range_start_exceed_length() {
    // bytes=99-
    let err = resolve_range(Some(HttpRange { start: 99, end: None }), Some(54), 10 * 1024 * 1024)
        .unwrap_err();
    assert_eq!(err, RangeError::Unsatisfiable);
}

#[test]
fn range_capped_by_request_maximum() {
    // A tail-following body caps every answer at its per-request maximum.
    let span = resolve_range(None, Some(100_000), 10 * 1024).unwrap();
    assert_eq!(span, RangeSpan { start: 0, end_excl: 10 * 1024, partial: false });
}

#[test]
fn growing_body_serves_open_ranges_only() {
    // While the size is unknown, an open range is served max bytes on; a
    // bounded one cannot be satisfied yet.
    let span = resolve_range(Some(HttpRange { start: 64, end: None }), None, 1024).unwrap();
    assert_eq!(span, RangeSpan { start: 64, end_excl: 64 + 1024, partial: true });
    let err = resolve_range(Some(HttpRange { start: 0, end: Some(9) }), None, 1024).unwrap_err();
    assert_eq!(err, RangeError::UnknownLength);
    let span = resolve_range(None, None, 1024).unwrap();
    assert_eq!(span, RangeSpan { start: 0, end_excl: 1024, partial: false });
}
