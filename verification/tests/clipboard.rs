use lan_mouse::clipboard::{
    is_text_mime, ClipboardError, Event, Origin, ReadLimit, SelectionState, MAX_CLIPBOARD_SIZE,
};

fn strings(v: &[&str]) -> Vec<String> {
    v.iter().map(|s| s.to_string()).collect()
}

#[test]
fn origin_keeps_its_id() {
    let o = Origin::new(7);
    assert_eq!(o.id(), 7);
    assert_eq!(o, Origin::new(7));
    assert_ne!(o, Origin::new(8));
}

#[test]
fn text_mime_prefix() {
    assert!(is_text_mime("text/plain;charset=utf-8"));
    assert!(is_text_mime("text/plain"));
    assert!(!is_text_mime("text/plai"));
    assert!(!is_text_mime("image/png"));
    assert!(!is_text_mime("TEXT/plain"));
}

#[test]
fn remote_selection_is_reported() {
    let mut s: SelectionState<u32> = SelectionState::new();
    s.on_data_offer(1);
    s.on_offer_mime("text/plain;charset=utf-8".to_string());
    s.on_offer_mime("UTF8_STRING".to_string());
    let ev = s.on_selection(true);
    assert_eq!(
        ev,
        Some(Event::Changed {
            mimes: strings(&["text/plain;charset=utf-8", "UTF8_STRING"])
        })
    );
    assert_eq!(s.selection_offer(), Some(&1));
    assert_eq!(s.selection_mimes(), &strings(&["text/plain;charset=utf-8", "UTF8_STRING"])[..]);
}

#[test]
fn cleared_selection_reports_no_mimes() {
    let mut s: SelectionState<u32> = SelectionState::new();
    s.on_data_offer(1);
    s.on_offer_mime("text/plain".to_string());
    s.on_selection(true);
    // owner went away: NULL selection
    let ev = s.on_selection(false);
    assert_eq!(ev, Some(Event::Changed { mimes: vec![] }));
    assert_eq!(s.selection_offer(), None);
    assert!(s.selection_mimes().is_empty());
}

#[test]
fn own_write_is_suppressed_once() {
    let mut s: SelectionState<u32> = SelectionState::new();
    s.record_offer(&["text/plain;charset=utf-8"], b"hello".to_vec()).unwrap();
    let origin = s.issue_origin();
    assert_eq!(origin.id(), 1);
    // our set_selection surfaces as a new offer and selection event
    s.on_data_offer(5);
    s.on_offer_mime("text/plain;charset=utf-8".to_string());
    assert_eq!(s.on_selection(true), None);
    assert_eq!(s.selection_offer(), Some(&5));
    // the next change is reported again
    s.on_data_offer(6);
    s.on_offer_mime("text/html".to_string());
    assert_eq!(
        s.on_selection(true),
        Some(Event::Changed { mimes: strings(&["text/html"]) })
    );
    assert_eq!(s.issue_origin().id(), 2);
}

#[test]
fn offer_above_cap_is_refused() {
    let mut s: SelectionState<u32> = SelectionState::new();
    let big = vec![0u8; MAX_CLIPBOARD_SIZE + 1];
    assert_eq!(
        s.record_offer(&["text/plain"], big),
        Err(ClipboardError::TooLarge(MAX_CLIPBOARD_SIZE))
    );
    // nothing recorded: the next selection is reported
    s.on_data_offer(1);
    assert_eq!(s.on_selection(true), Some(Event::Changed { mimes: vec![] }));
    assert_eq!(s.on_source_send("text/plain"), None);
    // exactly at the cap is accepted
    assert!(s.record_offer(&["text/plain"], vec![1u8; MAX_CLIPBOARD_SIZE]).is_ok());
}

#[test]
fn source_serves_offered_mimes_until_cancelled() {
    let mut s: SelectionState<u32> = SelectionState::new();
    s.record_offer(&["text/plain;charset=utf-8", "UTF8_STRING"], b"abc".to_vec())
        .unwrap();
    assert_eq!(s.on_source_send("UTF8_STRING"), Some(&b"abc"[..]));
    assert_eq!(s.on_source_send("text/plain;charset=utf-8"), Some(&b"abc"[..]));
    assert_eq!(s.on_source_send("text/html"), None);
    s.on_source_cancelled();
    assert_eq!(s.on_source_send("UTF8_STRING"), None);
}

#[test]
fn read_checks() {
    let mut s: SelectionState<u32> = SelectionState::new();
    assert_eq!(
        s.begin_read("image/png"),
        Err(ClipboardError::UnsupportedMime("image/png".to_string()))
    );
    assert_eq!(s.begin_read("text/plain"), Err(ClipboardError::NoSelection));
    s.on_data_offer(9);
    s.on_offer_mime("text/plain;charset=utf-8".to_string());
    s.on_selection(true);
    assert_eq!(s.begin_read("text/plain;charset=utf-8"), Ok(&9));
    assert_eq!(
        s.begin_read("text/plain"),
        Err(ClipboardError::UnsupportedMime("text/plain".to_string()))
    );
}

#[test]
fn read_limit_never_truncates() {
    let mut l = ReadLimit::new(10);
    assert!(l.may_read());
    assert_eq!(l.record(4), Ok(4));
    assert_eq!(l.record(6), Ok(6));
    assert!(l.may_read());
    assert_eq!(l.record(1), Err(ClipboardError::TooLarge(10)));
    assert!(!l.may_read());
}

#[test]
fn read_limit_zero_bytes() {
    let mut l = ReadLimit::new(0);
    assert_eq!(l.record(0), Ok(0));
    assert!(l.may_read());
    assert_eq!(l.record(1), Err(ClipboardError::TooLarge(0)));
    assert!(!l.may_read());
}

#[test]
fn origins_are_consecutive() {
    let mut s: SelectionState<u32> = SelectionState::new();
    let mut ids = Vec::new();
    for (i, size) in [1usize, MAX_CLIPBOARD_SIZE + 1, 3, MAX_CLIPBOARD_SIZE + 5, 2].iter().enumerate() {
        if s.record_offer(&["text/plain"], vec![0u8; *size]).is_ok() {
            ids.push(s.issue_origin().id());
        }
        s.on_data_offer(i as u32);
        s.on_selection(true);
    }
    assert_eq!(ids, vec![1, 2, 3]);
    assert_eq!(s.next_origin_id(), 4);
}
