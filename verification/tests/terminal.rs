use editor_host::terminal::{editor_size, shell_size, SessionTermState};

#[test]
fn terminals_start_with_a_size() {
    assert_eq!(editor_size(None, None), (40, 120));
    assert_eq!(editor_size(Some(1), None), (1, 120));
    assert_eq!(shell_size(None, None), (24, 80));
    assert_eq!(shell_size(None, Some(0)), (24, 0));
}

#[test]
fn sessions_have_numbers_of_their_own() {
    let mut state: SessionTermState<&str> = SessionTermState::new();
    assert!(state.has_room());
    let a = state.next_id();
    assert_eq!(a, 1);
    state.insert(a, "a");
    // A session that does not come about uses its number up.
    assert_eq!(state.next_id(), 2);
    let b = state.next_id();
    assert_eq!(b, 3);
    state.insert(b, "b");

    assert_eq!(state.session(a), Ok(&"a"));
    assert_eq!(state.session(b), Ok(&"b"));
    assert_eq!(state.session(2), Err("no terminal session 2".to_string()));
    assert_eq!(state.session(0), Err("no terminal session 0".to_string()));

    assert_eq!(state.remove(a), Some("a"));
    assert_eq!(state.remove(a), None);
    assert_eq!(state.session(a), Err("no terminal session 1".to_string()));
    assert_eq!(state.session(b), Ok(&"b"));
}
