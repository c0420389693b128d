use jbm::namespace::{namespace_tid, parse_innermost_namespace_pid, status_path};

#[test]
fn parses_the_innermost_pid_namespace_identifier() {
    assert_eq!(
        parse_innermost_namespace_pid("Name:\tjava\nNSpid:\t81234\t27\t3\n"),
        Some(3)
    );
}

#[test]
fn takes_the_first_namespace_line_and_its_last_word() {
    assert_eq!(
        parse_innermost_namespace_pid("NSpid: 7 8 \u{3000}\nNSpid: 9\n"),
        Some(8)
    );
    assert_eq!(parse_innermost_namespace_pid("NSpid:5\r\n"), Some(5));
    assert_eq!(parse_innermost_namespace_pid("NSpid: +12"), Some(12));
}

#[test]
fn an_identifier_that_is_no_number_is_none() {
    assert_eq!(parse_innermost_namespace_pid(""), None);
    assert_eq!(parse_innermost_namespace_pid("Name:\tjava\n"), None);
    assert_eq!(parse_innermost_namespace_pid(" NSpid: 1\n"), None);
    assert_eq!(parse_innermost_namespace_pid("NSpid:\t\n"), None);
    assert_eq!(parse_innermost_namespace_pid("NSpid: +\n"), None);
    assert_eq!(parse_innermost_namespace_pid("NSpid: -1\n"), None);
    assert_eq!(parse_innermost_namespace_pid("NSpid: 1x\nNSpid: 2\n"), None);
    assert_eq!(parse_innermost_namespace_pid("NSpid: 4294967296\n"), None);
    assert_eq!(
        parse_innermost_namespace_pid("NSpid: 4294967295\n"),
        Some(u32::MAX)
    );
}

#[test]
fn a_thread_is_translated_by_its_status() {
    assert_eq!(status_path(81234, 81250), "/proc/81234/task/81250/status");
    assert_eq!(namespace_tid(&Ok("NSpid:\t81250\t19\n".to_string())), Ok(19));
    assert_eq!(
        namespace_tid(&Ok("Name:\tjava\n".to_string())),
        Err("NSpid is missing from task status".to_string())
    );
    assert_eq!(
        namespace_tid(&Err("No such file".to_string())),
        Err("No such file".to_string())
    );
}
