//! Resolution of HTTP range requests against a body whose size may still be
//! unknown because the recording is growing.
//!
//! The transport edge parses the Range header and hands in the first
//! satisfiable range as plain bounds; this module decides the byte span to
//! serve, capped by the per-request maximum, and whether the response is a
//! partial one that carries a Content-Range header.

use vstd::prelude::*;

verus! {

/// The first requested range: a start offset and an optional inclusive end.
#[derive(Debug, Clone, Copy, PartialEq, Eq, Structural)]
pub struct HttpRange {
    /// First byte offset requested.
    pub start: u64,
    /// Last byte offset requested, inclusive; `None` leaves the range open.
    pub end: Option<u64>,
}

/// The span of bytes to serve.
#[derive(Debug, Clone, Copy, PartialEq, Eq, Structural)]
pub struct RangeSpan {
    /// First byte offset to serve.
    pub start: u64,
    /// One past the last byte offset to serve.
    pub end_excl: u64,
    /// Whether the response is partial and carries a Content-Range header.
    pub partial: bool,
}

/// Why a range request cannot be served.
#[derive(Debug, Clone, Copy, PartialEq, Eq, Structural)]
pub enum RangeError {
    /// The requested range lies outside the body or is empty.
    Unsatisfiable,
    /// A bounded range was requested of a body whose size is not yet known.
    UnknownLength,
}

/// What [`resolve_range`] returns, over mathematical integers: the start,
/// the exclusive end after capping at `max` bytes, and whether the response
/// is partial.
pub open spec fn spec_resolve_range(
    range: Option<(int, Option<int>)>,
    total: Option<int>,
    max: int,
) -> Result<(int, int, bool), RangeError> {
    match (range, total) {
        (Some((s, e)), Some(t)) => {
            let e_excl = match e {
                Some(e) => e + 1,
                None => t,
            };
            if s >= e_excl || e_excl > t {
                Err(RangeError::Unsatisfiable)
            } else {
                let len = if e_excl - s <= max {
                    e_excl - s
                } else {
                    max
                };
                Ok((s, s + len, true))
            }
        },
        (Some((s, e)), None) => {
            if e is Some {
                Err(RangeError::UnknownLength)
            } else {
                Ok((s, s + max, true))
            }
        },
        (None, Some(t)) => {
            let len = if t <= max {
                t
            } else {
                max
            };
            Ok((0, len, false))
        },
        (None, None) => Ok((0, max, false)),
    }
}

/// The view of an optional range as plain integers.
pub open spec fn spec_range_view(range: Option<HttpRange>) -> Option<(int, Option<int>)> {
    match range {
        Some(hr) => Some(
            (
                hr.start as int,
                match hr.end {
                    Some(e) => Some(e as int),
                    None => None,
                },
            ),
        ),
        None => None,
    }
}

/// The view of an optional total size as a plain integer.
pub open spec fn spec_total_view(total: Option<u64>) -> Option<int> {
    match total {
        Some(t) => Some(t as int),
        None => None,
    }
}

/// Decide the byte span to serve for a range request.
///
/// With a known total size, a requested range must fall inside the body and
/// be non-empty, and is then capped at `max` bytes from its start.  With an
/// unknown total size only an open-ended range can be served, `max` bytes
/// from its start.  Without a range the body is served from the start,
/// capped at `max`, and the response is not partial.
pub fn resolve_range(range: Option<HttpRange>, total: Option<u64>, max: u64) -> (r: Result<
    RangeSpan,
    RangeError,
>)
    requires
        range matches Some(hr) ==> (hr.end matches Some(e) ==> e < u64::MAX) && hr.start + max
            <= u64::MAX,
    ensures
        match r {
            Ok(span) => spec_resolve_range(
                spec_range_view(range),
                spec_total_view(total),
                max as int,
            ) == Ok::<(int, int, bool), RangeError>(
                (span.start as int, span.end_excl as int, span.partial),
            ),
            Err(e) => spec_resolve_range(
                spec_range_view(range),
                spec_total_view(total),
                max as int,
            ) == Err::<(int, int, bool), RangeError>(e),
        },
{
    match (range, total) {
        (Some(hr), Some(t)) => {
            let e_excl: u64 = match hr.end {
                Some(e) => e + 1,
                None => t,
            };
            if hr.start >= e_excl || e_excl > t {
                Err(RangeError::Unsatisfiable)
            } else {
                let requested: u64 = e_excl - hr.start;
                let len: u64 = if requested <= max {
                    requested
                } else {
                    max
                };
                Ok(RangeSpan { start: hr.start, end_excl: hr.start + len, partial: true })
            }
        },
        (Some(hr), None) => {
            if hr.end.is_some() {
                Err(RangeError::UnknownLength)
            } else {
                Ok(RangeSpan { start: hr.start, end_excl: hr.start + max, partial: true })
            }
        },
        (None, Some(t)) => {
            let len: u64 = if t <= max {
                t
            } else {
                max
            };
            Ok(RangeSpan { start: 0, end_excl: len, partial: false })
        },
        (None, None) => Ok(RangeSpan { start: 0, end_excl: max, partial: false }),
    }
}

} // verus!
