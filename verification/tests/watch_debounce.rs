use transcriber::watch::{event_triggers, Debouncer, WatchEventKind};

#[test]
fn create_event_with_matching_extension_triggers() {
    assert!(event_triggers(WatchEventKind::CreateFile, "/rec/a.m4a", "m4a"));
}

#[test]
fn metadata_event_with_matching_extension_triggers() {
    assert!(event_triggers(WatchEventKind::ModifyMetadataExtended, "/rec/a.m4a", "m4a"));
}

#[test]
fn other_event_kinds_never_trigger() {
    assert!(!event_triggers(WatchEventKind::Other, "/rec/a.m4a", "m4a"));
}

#[test]
fn wrong_extension_never_triggers() {
    assert!(!event_triggers(WatchEventKind::CreateFile, "/rec/a.mov", "m4a"));
    assert!(!event_triggers(WatchEventKind::ModifyMetadataExtended, "/rec/a", "m4a"));
}

#[test]
fn burst_for_one_path_delivers_once() {
    // many raw events for the same file within the quiet period: one
    // notification
    let mut d = Debouncer::new(2);
    d.record("/rec/a.m4a".to_string(), 10);
    d.record("/rec/a.m4a".to_string(), 10);
    d.record("/rec/a.m4a".to_string(), 11);
    d.record("/rec/a.m4a".to_string(), 11);
    d.record("/rec/a.m4a".to_string(), 12);
    let delivered = d.flush(14);
    assert_eq!(delivered, vec!["/rec/a.m4a".to_string()]);
}

#[test]
fn nothing_is_delivered_before_the_quiet_period() {
    let mut d = Debouncer::new(2);
    d.record("/rec/a.m4a".to_string(), 10);
    d.record("/rec/a.m4a".to_string(), 12);
    let early = d.flush(13);
    assert!(early.is_empty());
    let later = d.flush(14);
    assert_eq!(later, vec!["/rec/a.m4a".to_string()]);
}

#[test]
fn each_path_is_delivered_separately_and_once() {
    let mut d = Debouncer::new(2);
    d.record("/rec/a.m4a".to_string(), 10);
    d.record("/rec/b.m4a".to_string(), 11);
    d.record("/rec/a.m4a".to_string(), 11);
    let mut delivered = d.flush(13);
    delivered.sort();
    assert_eq!(delivered, vec!["/rec/a.m4a".to_string(), "/rec/b.m4a".to_string()]);
    // the notices were consumed: a second flush has nothing left
    assert!(d.flush(100).is_empty());
}

#[test]
fn flush_keeps_paths_still_in_their_quiet_period() {
    let mut d = Debouncer::new(2);
    d.record("/rec/a.m4a".to_string(), 10);
    d.record("/rec/b.m4a".to_string(), 20);
    let first = d.flush(12);
    assert_eq!(first, vec!["/rec/a.m4a".to_string()]);
    let second = d.flush(22);
    assert_eq!(second, vec!["/rec/b.m4a".to_string()]);
}
