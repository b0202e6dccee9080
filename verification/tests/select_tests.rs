//! The interactive session state machine.

use sshpick::select::{InputEvent, SelectionOutcome, Session};

fn strings(xs: &[&str]) -> Vec<String> {
    xs.iter().map(|x| x.to_string()).collect()
}

#[test]
fn a_new_session_shows_every_candidate() {
    let s = Session::new(strings(&["alpha", "beta"]));
    assert_eq!(s.ranked_len(), 2);
    assert_eq!(s.cursor(), 0);
    assert_eq!(s.ranked_candidate(0), "alpha");
    assert_eq!(s.ranked_candidate(1), "beta");
}

#[test]
fn inserting_a_character_narrows_the_list() {
    let mut s = Session::new(strings(&["alpha", "beta"]));
    assert!(s.handle_event(InputEvent::Insert('b')).is_none());
    assert_eq!(s.ranked_len(), 1);
    assert_eq!(s.ranked_candidate(0), "beta");
}

#[test]
fn backspace_undoes_the_narrowing() {
    let mut s = Session::new(strings(&["alpha", "beta"]));
    s.handle_event(InputEvent::Insert('b'));
    assert!(s.handle_event(InputEvent::Backspace).is_none());
    assert_eq!(s.query_chars().len(), 0);
    assert_eq!(s.ranked_len(), 2);
}

#[test]
fn backspace_on_an_empty_query_is_harmless() {
    let mut s = Session::new(strings(&["alpha"]));
    assert!(s.handle_event(InputEvent::Backspace).is_none());
    assert_eq!(s.query_chars().len(), 0);
    assert_eq!(s.ranked_len(), 1);
}

#[test]
fn confirm_returns_the_entry_under_the_cursor() {
    let mut s = Session::new(strings(&["alpha", "beta"]));
    s.handle_event(InputEvent::MoveDown);
    let out = s.handle_event(InputEvent::Confirm);
    assert_eq!(out, Some(SelectionOutcome::Confirmed("beta".to_string())));
}

#[test]
fn confirm_with_an_empty_list_is_a_no_op() {
    let mut s = Session::new(strings(&["abc"]));
    s.handle_event(InputEvent::Insert('z'));
    assert_eq!(s.ranked_len(), 0);
    assert!(s.handle_event(InputEvent::Confirm).is_none());
    // The loop goes on: widening the query makes confirm work again.
    s.handle_event(InputEvent::Backspace);
    let out = s.handle_event(InputEvent::Confirm);
    assert_eq!(out, Some(SelectionOutcome::Confirmed("abc".to_string())));
}

#[test]
fn abort_ends_the_session_from_any_state() {
    let mut s = Session::new(strings(&["alpha", "beta"]));
    s.handle_event(InputEvent::Insert('a'));
    s.handle_event(InputEvent::MoveDown);
    let out = s.handle_event(InputEvent::Abort);
    assert_eq!(out, Some(SelectionOutcome::Aborted));
}

#[test]
fn abort_with_an_empty_ranked_list_still_aborts() {
    let mut s = Session::new(strings(&["abc"]));
    s.handle_event(InputEvent::Insert('z'));
    assert_eq!(s.ranked_len(), 0);
    let out = s.handle_event(InputEvent::Abort);
    assert_eq!(out, Some(SelectionOutcome::Aborted));
}

#[test]
fn the_cursor_clamps_at_both_ends() {
    let mut s = Session::new(strings(&["a", "b"]));
    assert!(s.handle_event(InputEvent::MoveUp).is_none());
    assert_eq!(s.cursor(), 0);
    s.handle_event(InputEvent::MoveDown);
    assert_eq!(s.cursor(), 1);
    s.handle_event(InputEvent::MoveDown);
    assert_eq!(s.cursor(), 1);
    s.handle_event(InputEvent::MoveUp);
    assert_eq!(s.cursor(), 0);
}

#[test]
fn editing_the_query_resets_the_cursor() {
    let mut s = Session::new(strings(&["aa", "ab"]));
    s.handle_event(InputEvent::MoveDown);
    assert_eq!(s.cursor(), 1);
    s.handle_event(InputEvent::Insert('a'));
    assert_eq!(s.cursor(), 0);
}

#[test]
fn match_positions_are_reported_for_highlighting() {
    let mut s = Session::new(strings(&["database-1"]));
    s.handle_event(InputEvent::Insert('d'));
    s.handle_event(InputEvent::Insert('b'));
    assert_eq!(s.ranked_len(), 1);
    assert_eq!(s.ranked_item(0).positions, vec![0, 4]);
}
