use mdlite::config::{
    add_to_recent_list, next_zoom, retain_flagged, stored_zoom, ZoomAction, DEFAULT_ZOOM,
    MAX_RECENT, MAX_ZOOM, MIN_ZOOM,
};

#[test]
fn add_to_recent_inserts_at_front() {
    let mut list = vec!["old.md".to_string()];
    add_to_recent_list("new.md", &mut list);
    assert_eq!(list, vec!["new.md", "old.md"]);
}

#[test]
fn add_to_recent_deduplicates() {
    let mut list = vec!["a.md".to_string(), "b.md".to_string(), "c.md".to_string()];
    add_to_recent_list("b.md", &mut list);
    assert_eq!(list, vec!["b.md", "a.md", "c.md"]);
}

#[test]
fn add_to_recent_truncates_to_max() {
    let mut list: Vec<String> = (0..MAX_RECENT).map(|i| format!("{}.md", i)).collect();
    assert_eq!(list.len(), MAX_RECENT);

    add_to_recent_list("overflow.md", &mut list);
    assert_eq!(list.len(), MAX_RECENT);
    assert_eq!(list[0], "overflow.md");
    assert!(!list.contains(&format!("{}.md", MAX_RECENT - 1)));
}

#[test]
fn add_to_recent_duplicate_does_not_grow() {
    let mut list = vec!["a.md".to_string(), "b.md".to_string()];
    add_to_recent_list("a.md", &mut list);
    assert_eq!(list.len(), 2);
}

#[test]
fn add_to_recent_twice_is_same_as_once() {
    let mut once = vec!["a.md".to_string(), "b.md".to_string(), "c.md".to_string()];
    add_to_recent_list("c.md", &mut once);
    let mut twice = once.clone();
    add_to_recent_list("c.md", &mut twice);
    assert_eq!(once, twice);
    assert_eq!(once, vec!["c.md", "a.md", "b.md"]);
}

#[test]
fn add_to_recent_into_empty_list() {
    let mut list: Vec<String> = Vec::new();
    add_to_recent_list("only.md", &mut list);
    assert_eq!(list, vec!["only.md"]);
}

#[test]
fn add_to_recent_drops_every_earlier_copy() {
    let mut list = vec!["a.md".to_string(), "x.md".to_string(), "a.md".to_string()];
    add_to_recent_list("a.md", &mut list);
    assert_eq!(list, vec!["a.md", "x.md"]);
}

#[test]
fn retain_flagged_with_no_flag_set_keeps_nothing() {
    let list = vec!["/fake/path/a.md".to_string(), "/fake/path/b.md".to_string()];
    assert!(retain_flagged(list, &vec![false, false]).is_empty());
    assert!(retain_flagged(vec![], &vec![]).is_empty());
}

#[test]
fn retain_flagged_keeps_flagged_entries() {
    let list = vec!["a".to_string(), "b".to_string(), "c".to_string()];
    let kept = retain_flagged(list, &vec![true, false, true]);
    assert_eq!(kept, vec!["a", "c"]);
}

#[test]
fn stored_zoom_clamps_and_defaults() {
    assert_eq!(stored_zoom(None), DEFAULT_ZOOM);
    assert_eq!(stored_zoom(Some(10)), MIN_ZOOM);
    assert_eq!(stored_zoom(Some(500)), MAX_ZOOM);
    assert_eq!(stored_zoom(Some(120)), 120);
    assert_eq!(stored_zoom(Some(u64::MAX)), MAX_ZOOM);
}

#[test]
fn zoom_steps_and_bounds() {
    assert_eq!(next_zoom(ZoomAction::In, 100), 110);
    assert_eq!(next_zoom(ZoomAction::In, 195), 200);
    assert_eq!(next_zoom(ZoomAction::In, 200), 200);
    assert_eq!(next_zoom(ZoomAction::Out, 100), 90);
    assert_eq!(next_zoom(ZoomAction::Out, 55), 50);
    assert_eq!(next_zoom(ZoomAction::Out, 5), 50);
    assert_eq!(next_zoom(ZoomAction::Reset, 170), 100);
}

#[test]
fn zoom_in_then_out_returns() {
    for z in [50u32, 100, 150, 190] {
        assert_eq!(next_zoom(ZoomAction::Out, next_zoom(ZoomAction::In, z)), z);
    }
}
