use url_clipper::state::Entry;
use url_clipper::state::Filter;
use url_clipper::state::State;
use url_clipper::state::StoreError;

fn entry(description: &str, completed: bool) -> Entry {
    Entry { description: description.to_string(), completed, editing: false }
}

fn sample_state() -> State {
    State {
        entries: vec![entry("a", false), entry("b", true), entry("c", false)],
        value: String::new(),
        edit_value: String::new(),
        filter: Filter::All,
    }
}

#[test]
fn toggle_twice_restores() {
    let mut s = sample_state();
    assert!(s.toggle(1).is_ok());
    assert!(s.entries[1].completed == false);
    assert!(s.toggle(1).is_ok());
    assert!(s.entries[1].completed == true);
    assert_eq!(s.entries.len(), 3);
    assert_eq!(s.entries[0].description, "a");
    assert_eq!(s.entries[2].description, "c");
}

#[test]
fn toggle_changes_only_target() {
    let mut s = sample_state();
    assert!(s.toggle(0).is_ok());
    assert!(s.entries[0].completed);
    assert!(s.entries[1].completed);
    assert!(!s.entries[2].completed);
}

#[test]
fn toggle_out_of_range_is_not_found() {
    let mut s = sample_state();
    let r = s.toggle(3);
    assert!(matches!(r, Err(StoreError::NotFound)));
    assert_eq!(s.entries.len(), 3);
    assert!(!s.entries[0].completed);
}

#[test]
fn remove_shifts_later_entries() {
    let mut s = sample_state();
    assert!(s.remove(1).is_ok());
    assert_eq!(s.entries.len(), 2);
    assert_eq!(s.entries[0].description, "a");
    assert_eq!(s.entries[1].description, "c");
}

#[test]
fn remove_out_of_range_is_not_found() {
    let mut s = sample_state();
    let r = s.remove(17);
    assert!(matches!(r, Err(StoreError::NotFound)));
    assert_eq!(s.entries.len(), 3);
}

#[test]
fn remove_from_empty_is_not_found() {
    let mut s = State {
        entries: Vec::new(),
        value: String::new(),
        edit_value: String::new(),
        filter: Filter::All,
    };
    assert!(matches!(s.remove(0), Err(StoreError::NotFound)));
    assert_eq!(s.entries.len(), 0);
}

#[test]
fn clear_completed_is_idempotent() {
    let mut s = sample_state();
    s.clear_completed();
    assert_eq!(s.entries.len(), 2);
    assert_eq!(s.entries[0].description, "a");
    assert_eq!(s.entries[1].description, "c");
    assert_eq!(s.count_completed(), 0);
    s.clear_completed();
    assert_eq!(s.entries.len(), 2);
    assert_eq!(s.entries[0].description, "a");
    assert_eq!(s.entries[1].description, "c");
}

#[test]
fn toggle_all_true_completes_everything() {
    let mut s = sample_state();
    s.toggle_all(true);
    assert_eq!(s.count_completed(), s.count_total());
    assert_eq!(s.count_completed(), 3);
}

#[test]
fn toggle_all_false_completes_nothing() {
    let mut s = sample_state();
    s.toggle_all(false);
    assert_eq!(s.count_completed(), 0);
    assert_eq!(s.count_total(), 3);
}

#[test]
fn filters_partition_entries() {
    let done = entry("done", true);
    let open = entry("open", false);
    for e in [&done, &open] {
        assert!(Filter::All.matches(e));
        assert!(Filter::Active.matches(e) != Filter::Completed.matches(e));
    }
    assert!(Filter::Active.matches(&open));
    assert!(Filter::Completed.matches(&done));
}

#[test]
fn set_filter_replaces_filter() {
    let mut s = sample_state();
    s.set_filter(Filter::Completed);
    assert!(matches!(s.filter, Filter::Completed));
    s.set_filter(Filter::Active);
    assert!(matches!(s.filter, Filter::Active));
}

#[test]
fn set_input_replaces_value() {
    let mut s = sample_state();
    s.set_input("  hello ".to_string());
    assert_eq!(s.value, "  hello ");
    s.set_edit_input("draft".to_string());
    assert_eq!(s.edit_value, "draft");
}

#[test]
fn start_edit_marks_exactly_one_entry() {
    let mut s = sample_state();
    assert!(s.start_edit(2).is_ok());
    assert!(!s.entries[0].editing);
    assert!(!s.entries[1].editing);
    assert!(s.entries[2].editing);
    assert_eq!(s.edit_value, "c");
    assert!(s.start_edit(0).is_ok());
    assert!(s.entries[0].editing);
    assert!(!s.entries[1].editing);
    assert!(!s.entries[2].editing);
    assert_eq!(s.edit_value, "a");
}

#[test]
fn start_edit_out_of_range_is_not_found() {
    let mut s = sample_state();
    assert!(matches!(s.start_edit(9), Err(StoreError::NotFound)));
    assert!(!s.entries[0].editing && !s.entries[1].editing && !s.entries[2].editing);
}

#[test]
fn commit_edit_trims_and_clears_editing() {
    let mut s = sample_state();
    assert!(s.start_edit(1).is_ok());
    assert!(s.commit_edit(1, "  new text  ").is_ok());
    assert_eq!(s.entries[1].description, "new text");
    assert!(!s.entries[1].editing);
    assert!(s.entries[1].completed);
    assert_eq!(s.edit_value, "");
}

#[test]
fn commit_edit_accepts_blank_description() {
    let mut s = sample_state();
    assert!(s.commit_edit(0, "   ").is_ok());
    assert_eq!(s.entries[0].description, "");
}

#[test]
fn commit_edit_out_of_range_is_not_found() {
    let mut s = sample_state();
    assert!(matches!(s.commit_edit(5, "x"), Err(StoreError::NotFound)));
    assert_eq!(s.entries[0].description, "a");
}
