use url_clipper::state::Filter;
use url_clipper::state::State;
use url_clipper::update::restore_state;
use url_clipper::update::update;
use url_clipper::update::Effect;
use url_clipper::update::FetchFailure;
use url_clipper::update::Msg;
use url_clipper::update::Url;

const BASE: &str = "http://clip:8090/";

fn fresh() -> State {
    restore_state(None)
}

fn ok_response(address: &str) -> Msg {
    Msg::UpdateStore(Ok(Url { address: address.to_string() }))
}

#[test]
fn restore_without_stored_bytes_is_empty() {
    let s = fresh();
    assert_eq!(s.entries.len(), 0);
    assert_eq!(s.value, "");
    assert_eq!(s.edit_value, "");
    assert!(matches!(s.filter, Filter::All));
}

#[test]
fn restore_from_garbage_is_empty() {
    let s = restore_state(Some(&b"corrupted".to_vec()));
    assert_eq!(s.entries.len(), 0);
}

#[test]
fn submit_trims_and_issues_request() {
    let mut s = fresh();
    s.set_input("  http://example.com  ".to_string());
    let effects = update(&mut s, BASE, Msg::Add);
    assert_eq!(s.value, "");
    assert_eq!(s.entries.len(), 0);
    assert_eq!(effects.len(), 2);
    match &effects[0] {
        Effect::Fetch(body) => {
            assert_eq!(body, &b"{\"address\":\"http://example.com\"}".to_vec());
        }
        _ => panic!("first effect must be the clip request"),
    }
    assert!(matches!(effects[1], Effect::Store(_)));
}

#[test]
fn submit_blank_issues_no_request() {
    for blank in ["", "   ", "\t \r\n"] {
        let mut s = fresh();
        s.set_input(blank.to_string());
        let effects = update(&mut s, BASE, Msg::Add);
        assert_eq!(s.value, "");
        assert_eq!(s.entries.len(), 0);
        assert_eq!(effects.len(), 1);
        assert!(matches!(effects[0], Effect::Store(_)));
    }
}

#[test]
fn successful_response_appends_with_base() {
    let mut s = fresh();
    let _ = update(&mut s, BASE, ok_response("abc123"));
    assert_eq!(s.entries.len(), 1);
    assert_eq!(s.entries[0].description, "http://clip:8090/abc123");
    assert!(!s.entries[0].completed);
}

#[test]
fn failed_response_changes_nothing_and_logs() {
    let mut s = fresh();
    let _ = update(&mut s, BASE, ok_response("keep"));
    let before = s.entries.len();
    let effects = update(
        &mut s,
        BASE,
        Msg::UpdateStore(Err(FetchFailure { message: "HTTP 500".to_string() })),
    );
    assert_eq!(s.entries.len(), before);
    assert_eq!(s.entries[0].description, "http://clip:8090/keep");
    assert_eq!(effects.len(), 4);
    match &effects[2] {
        Effect::Log(m) => assert_eq!(m, "HTTP 500"),
        _ => panic!("the diagnostic must be logged"),
    }
    assert!(matches!(effects[3], Effect::Store(_)));
}

#[test]
fn duplicate_response_is_suppressed() {
    let mut s = fresh();
    let _ = update(&mut s, BASE, ok_response("same"));
    let _ = update(&mut s, BASE, ok_response("same"));
    assert_eq!(s.entries.len(), 1);
    let _ = update(&mut s, BASE, ok_response("other"));
    assert_eq!(s.entries.len(), 2);
}

#[test]
fn duplicate_check_considers_completed_flag() {
    let mut s = fresh();
    let _ = update(&mut s, BASE, ok_response("same"));
    let _ = update(&mut s, BASE, Msg::Toggle(0));
    let _ = update(&mut s, BASE, ok_response("same"));
    assert_eq!(s.entries.len(), 2);
}

#[test]
fn remove_and_toggle_events_apply_defensively() {
    let mut s = fresh();
    let _ = update(&mut s, BASE, ok_response("a"));
    let _ = update(&mut s, BASE, ok_response("b"));
    let _ = update(&mut s, BASE, Msg::Toggle(1));
    assert!(s.entries[1].completed);
    let _ = update(&mut s, BASE, Msg::Remove(0));
    assert_eq!(s.entries.len(), 1);
    assert_eq!(s.entries[0].description, "http://clip:8090/b");
    let effects = update(&mut s, BASE, Msg::Remove(7));
    assert_eq!(s.entries.len(), 1);
    assert_eq!(effects.len(), 1);
}

#[test]
fn update_event_sets_value_and_logs() {
    let mut s = fresh();
    let effects = update(&mut s, BASE, Msg::Update("typed".to_string()));
    assert_eq!(s.value, "typed");
    assert_eq!(effects.len(), 2);
    match &effects[0] {
        Effect::Log(m) => assert_eq!(m, "Update"),
        _ => panic!("the update event is logged"),
    }
}

#[test]
fn focus_event_only_focuses_and_stores() {
    let mut s = fresh();
    let effects = update(&mut s, BASE, Msg::Focus);
    assert_eq!(effects.len(), 2);
    assert!(matches!(effects[0], Effect::Focus));
    assert!(matches!(effects[1], Effect::Store(_)));
    assert_eq!(s.entries.len(), 0);
}

#[test]
fn stored_bytes_restore_to_equal_entries() {
    let mut s = fresh();
    let _ = update(&mut s, BASE, ok_response("abc"));
    let _ = update(&mut s, BASE, ok_response("def"));
    let _ = update(&mut s, BASE, Msg::Toggle(0));
    let effects = update(&mut s, BASE, Msg::Focus);
    let stored = match effects.last() {
        Some(Effect::Store(bytes)) => bytes.clone(),
        _ => panic!("every step ends with a storage write"),
    };
    let restored = restore_state(Some(&stored));
    assert_eq!(restored.entries.len(), s.entries.len());
    for (a, b) in s.entries.iter().zip(restored.entries.iter()) {
        assert_eq!(a.description, b.description);
        assert_eq!(a.completed, b.completed);
        assert_eq!(a.editing, b.editing);
    }
}
