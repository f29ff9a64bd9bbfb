use minikv::registry::Registry;

#[test]
fn one_connection_lines_come_out_in_order() {
    let mut reg = Registry::new();
    let idx = reg.accept_conn();
    assert_eq!(idx, 0);
    reg.note_data(0, &b"SET foo bar\nGET foo\n".to_vec());
    assert_eq!(reg.poll_line(), Some((b"SET foo bar\n".to_vec(), 0)));
    assert_eq!(reg.poll_line(), Some((b"GET foo\n".to_vec(), 0)));
    assert_eq!(reg.poll_line(), None);
}

#[test]
fn partial_lines_wait_for_their_terminator() {
    let mut reg = Registry::new();
    reg.accept_conn();
    reg.note_data(0, &b"SET fo".to_vec());
    assert_eq!(reg.poll_line(), None);
    reg.note_data(0, &b"o bar\n".to_vec());
    assert_eq!(reg.poll_line(), Some((b"SET foo bar\n".to_vec(), 0)));
    assert_eq!(reg.poll_line(), None);
}

#[test]
fn scan_surfaces_the_earliest_ready_connection() {
    let mut reg = Registry::new();
    reg.accept_conn();
    reg.accept_conn();
    reg.note_data(1, &b"second\n".to_vec());
    assert_eq!(reg.poll_line(), Some((b"second\n".to_vec(), 1)));
    reg.note_data(0, &b"first\n".to_vec());
    reg.note_data(1, &b"late\n".to_vec());
    assert_eq!(reg.poll_line(), Some((b"first\n".to_vec(), 0)));
    assert_eq!(reg.poll_line(), Some((b"late\n".to_vec(), 1)));
}

#[test]
fn reaping_drops_closed_connections_and_keeps_order() {
    let mut reg = Registry::new();
    reg.accept_conn();
    reg.accept_conn();
    reg.accept_conn();
    reg.note_data(2, &b"kept\n".to_vec());
    reg.note_closed(0);
    reg.note_closed(1);
    let removed = reg.reap();
    assert_eq!(removed, vec![1, 0]);
    assert_eq!(reg.len(), 1);
    assert_eq!(reg.poll_line(), Some((b"kept\n".to_vec(), 0)));
}

#[test]
fn reaping_an_empty_or_open_registry_removes_nothing() {
    let mut reg = Registry::new();
    assert_eq!(reg.reap(), Vec::<usize>::new());
    reg.accept_conn();
    reg.note_data(0, &b"still here\n".to_vec());
    assert_eq!(reg.reap(), Vec::<usize>::new());
    assert_eq!(reg.len(), 1);
    assert_eq!(reg.poll_line(), Some((b"still here\n".to_vec(), 0)));
}

#[test]
fn buffered_line_survives_a_close_until_reap() {
    let mut reg = Registry::new();
    reg.accept_conn();
    reg.note_data(0, &b"last words\n".to_vec());
    reg.note_closed(0);
    assert_eq!(reg.poll_line(), Some((b"last words\n".to_vec(), 0)));
    let removed = reg.reap();
    assert_eq!(removed, vec![0]);
    assert_eq!(reg.len(), 0);
}
