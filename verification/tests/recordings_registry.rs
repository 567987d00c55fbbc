//! The recording registry and the recording-directory helpers.

use webm_streamer::recordings::{
    find_by_name, has_webm_suffix, latest_recording, recording_file_name, sort_by_created_desc,
    RecordingInfo, RecordingQuery,
};
use webm_streamer::registry::{AttachDecision, Registry, RegistryError};

#[test]
fn start_stop_and_conflicts() {
    let mut reg = Registry::new();
    let path = String::from("/rec/a.webm");
    assert!(!reg.is_active(&path));
    reg.start(path.clone()).unwrap();
    assert!(reg.is_active(&path));
    // A second writer for the same path is rejected.
    assert_eq!(reg.start(path.clone()), Err(RegistryError::AlreadyRecording));
    // Another path is unaffected.
    let other = String::from("/rec/b.webm");
    reg.start(other.clone()).unwrap();
    reg.stop(&path);
    assert!(!reg.is_active(&path));
    assert!(reg.is_active(&other));
    // Stop is idempotent.
    reg.stop(&path);
    assert!(!reg.is_active(&path));
}

#[test]
fn attach_decisions() {
    let mut reg = Registry::new();
    let path = String::from("/rec/live.webm");
    // Not recorded: fall back to the file on disk.
    assert_eq!(reg.attach_or_create(&path), AttachDecision::NotRecorded);
    reg.start(path.clone()).unwrap();
    // First streaming request creates the follower...
    assert_eq!(reg.attach_or_create(&path), AttachDecision::Created);
    // ...and later ones share it.
    assert_eq!(reg.attach_or_create(&path), AttachDecision::Existing);
    assert_eq!(reg.attach_or_create(&path), AttachDecision::Existing);
}

#[test]
fn recording_names_are_zero_padded() {
    let name = recording_file_name(1, 2, 3, 4);
    assert_eq!(name, b"01_02_03_04.webm".to_vec());
    let name = recording_file_name(31, 23, 59, 59);
    assert_eq!(name, b"31_23_59_59.webm".to_vec());
}

#[test]
fn webm_suffix_detection() {
    assert!(has_webm_suffix(&String::from("01_02_03_04.webm")));
    assert!(has_webm_suffix(&String::from(".webm")));
    assert!(!has_webm_suffix(&String::from("notes.txt")));
    assert!(!has_webm_suffix(&String::from("webm")));
    assert!(!has_webm_suffix(&String::from("")));
}

#[test]
fn newest_recording_wins() {
    let entries = vec![
        RecordingInfo { name: String::from("a.webm"), created: 10 },
        RecordingInfo { name: String::from("b.webm"), created: 30 },
        RecordingInfo { name: String::from("c.webm"), created: 20 },
        RecordingInfo { name: String::from("d.webm"), created: 30 },
    ];
    // The earliest of the equally newest entries is kept.
    assert_eq!(latest_recording(&entries), Some(1));
    assert_eq!(latest_recording(&Vec::new()), None);
}

#[test]
fn listing_is_newest_first() {
    let entries = vec![
        RecordingInfo { name: String::from("a.webm"), created: 10 },
        RecordingInfo { name: String::from("b.webm"), created: 30 },
        RecordingInfo { name: String::from("c.webm"), created: 20 },
    ];
    let sorted = sort_by_created_desc(entries);
    let times: Vec<u64> = sorted.iter().map(|e| e.created).collect();
    assert_eq!(times, vec![30, 20, 10]);
    let names: Vec<&str> = sorted.iter().map(|e| e.name.as_str()).collect();
    assert_eq!(names, vec!["b.webm", "c.webm", "a.webm"]);
}

#[test]
fn lookup_by_name() {
    let entries = vec![
        RecordingInfo { name: String::from("a.webm"), created: 10 },
        RecordingInfo { name: String::from("b.webm"), created: 30 },
    ];
    assert_eq!(find_by_name(&entries, &String::from("b.webm")), Some(1));
    assert_eq!(find_by_name(&entries, &String::from("zzz.webm")), None);
}

#[test]
fn query_names_a_recording_or_not() {
    let q = RecordingQuery { recording: Some(String::from("a.webm")) };
    assert_eq!(q.recording.as_deref(), Some("a.webm"));
    let q = RecordingQuery { recording: None };
    assert!(q.recording.is_none());
}
