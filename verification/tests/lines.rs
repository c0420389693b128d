use jbm::lines::drain_complete_lines;

#[test]
fn retains_an_incomplete_json_line_until_newline_arrives() {
    let mut pending = br#"{"timestamp":1"#.to_vec();
    assert!(drain_complete_lines(&mut pending).is_empty());
    assert_eq!(pending, br#"{"timestamp":1"#);

    pending.extend_from_slice(b"}\nsecond\npartial");
    assert_eq!(
        drain_complete_lines(&mut pending),
        vec![br#"{"timestamp":1}"#.to_vec(), b"second".to_vec()]
    );
    assert_eq!(pending, b"partial");
}

#[test]
fn empty_lines_are_left_out() {
    let mut pending = b"\n\na\n\nb\n\n".to_vec();
    assert_eq!(
        drain_complete_lines(&mut pending),
        vec![b"a".to_vec(), b"b".to_vec()]
    );
    assert!(pending.is_empty());
}

#[test]
fn pieces_give_the_same_lines_as_the_whole() {
    let whole = b"one\ntwo\n\nthree\nfour".to_vec();
    let mut at_once = whole.clone();
    let expected = drain_complete_lines(&mut at_once);
    for cut in 0..whole.len() {
        let mut pending = whole[..cut].to_vec();
        let mut lines = drain_complete_lines(&mut pending);
        pending.extend_from_slice(&whole[cut..]);
        lines.extend(drain_complete_lines(&mut pending));
        assert_eq!(lines, expected);
        assert_eq!(pending, at_once);
    }
}
