//! What the recording directory holds: file naming, the newest recording,
//! lookup by name, and the listing order.
//!
//! Recordings are named `DD_HH_MM_SS.webm` in local time; the transport
//! edge supplies the clock fields and performs the directory walks, handing
//! this module plain names and creation times.

use vstd::prelude::*;
use vstd::seq_lib::group_to_multiset_ensures;
use vstd::utf8::encode_utf8;

verus! {

/// The two ASCII digits of `n`, zero padded.
pub open spec fn spec_two_digits(n: int) -> Seq<u8> {
    seq![(0x30 + n / 10) as u8, (0x30 + n % 10) as u8]
}

/// The ASCII bytes of the name `DD_HH_MM_SS.webm`.
pub open spec fn spec_recording_file_name(day: int, hour: int, minute: int, second: int) -> Seq<
    u8,
> {
    spec_two_digits(day) + seq![0x5fu8] + spec_two_digits(hour) + seq![0x5fu8] + spec_two_digits(
        minute,
    ) + seq![0x5fu8] + spec_two_digits(second) + spec_webm_suffix()
}

/// The ASCII bytes of `.webm`.
pub open spec fn spec_webm_suffix() -> Seq<u8> {
    seq![0x2eu8, 0x77u8, 0x65u8, 0x62u8, 0x6du8]
}

/// The two ASCII digits of `n`, zero padded.
fn two_digits(n: u64) -> (r: Vec<u8>)
    requires
        n <= 99,
    ensures
        r@ == spec_two_digits(n as int),
{
    let mut r: Vec<u8> = Vec::new();
    r.push(0x30 + (n / 10) as u8);
    r.push(0x30 + (n % 10) as u8);
    proof {
        assert(r@ =~= spec_two_digits(n as int));
    }
    r
}

/// The ASCII name a recording started at the given local time gets:
/// `DD_HH_MM_SS.webm`, each field zero padded to two digits.
pub fn recording_file_name(day: u64, hour: u64, minute: u64, second: u64) -> (r: Vec<u8>)
    requires
        day <= 31,
        hour <= 23,
        minute <= 59,
        second <= 59,
    ensures
        r@ == spec_recording_file_name(day as int, hour as int, minute as int, second as int),
{
    let mut r = two_digits(day);
    r.push(0x5f);
    let h = two_digits(hour);
    r.push(h[0]);
    r.push(h[1]);
    r.push(0x5f);
    let m = two_digits(minute);
    r.push(m[0]);
    r.push(m[1]);
    r.push(0x5f);
    let s = two_digits(second);
    r.push(s[0]);
    r.push(s[1]);
    r.push(0x2e);
    r.push(0x77);
    r.push(0x65);
    r.push(0x62);
    r.push(0x6d);
    proof {
        assert(r@ =~= spec_recording_file_name(
            day as int,
            hour as int,
            minute as int,
            second as int,
        ));
    }
    r
}

/// Whether a file name's bytes end in `.webm`.
pub open spec fn spec_has_webm_suffix(bytes: Seq<u8>) -> bool {
    bytes.len() >= 5 && bytes.subrange(bytes.len() - 5, bytes.len() as int) == spec_webm_suffix()
}

/// Whether `name` ends in `.webm`; only such files are recordings.
pub fn has_webm_suffix(name: &String) -> (r: bool)
    ensures
        r == spec_has_webm_suffix(encode_utf8(name@)),
{
    let bytes = name.as_str().as_bytes();
    let n = bytes.len();
    if n < 5 {
        proof {
            assert(!spec_has_webm_suffix(encode_utf8(name@)));
        }
        return false;
    }
    let r = bytes[n - 1] == 0x6d && bytes[n - 2] == 0x62 && bytes[n - 3] == 0x65 && bytes[n - 4]
        == 0x77 && bytes[n - 5] == 0x2e;
    proof {
        let bs = encode_utf8(name@);
        if r {
            assert(bs.subrange(bs.len() - 5, bs.len() as int) =~= spec_webm_suffix());
        } else {
            assert(bs.subrange(bs.len() - 5, bs.len() as int) != spec_webm_suffix()) by {
                if bs.subrange(bs.len() - 5, bs.len() as int) == spec_webm_suffix() {
                    assert(bs.subrange(bs.len() - 5, bs.len() as int)[4] == 0x6du8);
                    assert(bs.subrange(bs.len() - 5, bs.len() as int)[3] == 0x62u8);
                    assert(bs.subrange(bs.len() - 5, bs.len() as int)[2] == 0x65u8);
                    assert(bs.subrange(bs.len() - 5, bs.len() as int)[1] == 0x77u8);
                    assert(bs.subrange(bs.len() - 5, bs.len() as int)[0] == 0x2eu8);
                }
            }
        }
    }
    r
}

/// The query a consumer sends to pick a recording; without a name, the
/// newest recording is served.
#[derive(Debug, Clone, PartialEq, Eq)]
pub struct RecordingQuery {
    /// The recording's file name, if the consumer named one.
    pub recording: Option<String>,
}

/// One recording on disk: its file name and its creation time, as seconds
/// since the epoch.
#[derive(Debug, Clone, PartialEq, Eq)]
pub struct RecordingInfo {
    /// The file's name.
    pub name: String,
    /// Creation time, seconds since the epoch.
    pub created: u64,
}

/// The index of the newest recording: the first entry whose creation time
/// no other entry exceeds, as the directory scan keeps the earliest of
/// equally new entries.
pub fn latest_recording(entries: &Vec<RecordingInfo>) -> (r: Option<usize>)
    ensures
        match r {
            Some(i) => {
                &&& i < entries@.len()
                &&& forall|j: int|
                    0 <= j < entries@.len() ==> (#[trigger] entries@[j]).created
                        <= entries@[i as int].created
                &&& forall|j: int|
                    0 <= j < i ==> (#[trigger] entries@[j]).created < entries@[i as int].created
            },
            None => entries@.len() == 0,
        },
{
    if entries.len() == 0 {
        return None;
    }
    let mut best: usize = 0;
    let mut i: usize = 1;
    while i < entries.len()
        invariant
            0 <= best < i <= entries@.len(),
            forall|j: int|
                0 <= j < i ==> (#[trigger] entries@[j]).created <= entries@[best as int].created,
            forall|j: int|
                0 <= j < best ==> (#[trigger] entries@[j]).created < entries@[best as int].created,
        decreases entries@.len() - i,
    {
        if entries[i].created > entries[best].created {
            best = i;
        }
        i = i + 1;
    }
    Some(best)
}

/// Whether a listing is ordered newest first.
pub open spec fn sorted_by_created_desc(s: Seq<RecordingInfo>) -> bool {
    forall|i: int, j: int| 0 <= i < j < s.len() ==> s[i].created >= s[j].created
}

/// Order a listing newest first.  The result holds exactly the given
/// entries.
pub fn sort_by_created_desc(entries: Vec<RecordingInfo>) -> (r: Vec<RecordingInfo>)
    ensures
        sorted_by_created_desc(r@),
        r@.to_multiset() == entries@.to_multiset(),
        r@.len() == entries@.len(),
{
    broadcast use group_to_multiset_ensures;

    let mut rest = entries;
    let mut out: Vec<RecordingInfo> = Vec::new();
    while rest.len() > 0
        invariant
            out@.to_multiset().add(rest@.to_multiset()) == entries@.to_multiset(),
            out@.len() + rest@.len() == entries@.len(),
            sorted_by_created_desc(out@),
            forall|i: int, j: int|
                0 <= i < out@.len() && 0 <= j < rest@.len() ==> (#[trigger] out@[i]).created >= (
                #[trigger] rest@[j]).created,
        decreases rest@.len(),
    {
        let mut best: usize = 0;
        let mut i: usize = 1;
        while i < rest.len()
            invariant
                rest@.len() > 0,
                0 <= best < i <= rest@.len(),
                forall|j: int|
                    0 <= j < i ==> (#[trigger] rest@[j]).created <= rest@[best as int].created,
            decreases rest@.len() - i,
        {
            if rest[i].created > rest[best].created {
                best = i;
            }
            i = i + 1;
        }
        let ghost pre_out = out@;
        let ghost pre_rest = rest@;
        let picked = rest.remove(best);
        out.push(picked);
        proof {
            pre_rest.to_multiset_ensures();
            pre_out.to_multiset_ensures();
            rest@.to_multiset_ensures();
            assert(pre_rest.remove(best as int).to_multiset() =~= pre_rest.to_multiset().remove(
                pre_rest[best as int],
            ));
            assert(pre_out.push(picked).to_multiset() =~= pre_out.to_multiset().insert(picked));
            assert(out@.to_multiset().add(rest@.to_multiset()) =~= entries@.to_multiset());
        }
    }
    proof {
        rest@.to_multiset_ensures();
        assert(rest@.to_multiset().len() == 0);
        assert(out@.to_multiset().add(rest@.to_multiset()) =~= out@.to_multiset());
    }
    out
}

/// The index of the recording named `name`, if one is listed.
pub fn find_by_name(entries: &Vec<RecordingInfo>, name: &String) -> (r: Option<usize>)
    ensures
        match r {
            Some(i) => i < entries@.len() && entries@[i as int].name@ == name@,
            None => forall|j: int| 0 <= j < entries@.len() ==> (#[trigger] entries@[j]).name@ != name@,
        },
{
    let mut i: usize = 0;
    while i < entries.len()
        invariant
            0 <= i <= entries@.len(),
            forall|j: int| 0 <= j < i ==> (#[trigger] entries@[j]).name@ != name@,
        decreases entries@.len() - i,
    {
        if entries[i].name == *name {
            return Some(i);
        }
        i = i + 1;
    }
    None
}

} // verus!
