use pass2csv::entry::Entry;
use pass2csv::entry::Pass2CSVError;
use pass2csv::text::split_lines;
use pass2csv::text::trim_spaces;

#[test]
fn split_lines_basic() {
    assert_eq!(split_lines("a\nb"), vec!["a".to_string(), "b".to_string()]);
}

#[test]
fn split_lines_crlf() {
    assert_eq!(split_lines("a\r\nb"), vec!["a".to_string(), "b".to_string()]);
}

#[test]
fn split_lines_trailing_newline() {
    assert_eq!(split_lines("a\n"), vec!["a".to_string()]);
}

#[test]
fn split_lines_empty() {
    assert_eq!(split_lines(""), Vec::<String>::new());
}

#[test]
fn split_lines_lone_cr_stays() {
    assert_eq!(split_lines("a\rx"), vec!["a\rx".to_string()]);
}

#[test]
fn split_lines_blank_interior_line() {
    assert_eq!(
        split_lines("a\n\nb"),
        vec!["a".to_string(), "".to_string(), "b".to_string()]
    );
}

#[test]
fn trim_spaces_both_sides() {
    assert_eq!(trim_spaces("  hi there \n"), "hi there");
}

#[test]
fn trim_spaces_untouched() {
    assert_eq!(trim_spaces("plain"), "plain");
}

#[test]
fn entry_only_line() {
    let e = Entry::new("onlyline", "p", ";").unwrap();
    assert_eq!(e.password, "onlyline");
    assert_eq!(e.additional, "");
    assert_eq!(e.file_path, "p");
}

#[test]
fn entry_empty_content_is_refused() {
    let r = Entry::new("", "p", ";");
    assert!(matches!(r, Err(Pass2CSVError::NoPassword)));
}

#[test]
fn entry_multi_line_flattens_with_trailing_delimiter() {
    let e = Entry::new("secret\nuser: bob\nnote", "vault/site.gpg", ",").unwrap();
    assert_eq!(e.password, "secret");
    assert_eq!(e.additional, "user: bob,note,");
    assert_eq!(e.file_path, "vault/site.gpg");
}

#[test]
fn entry_keeps_blank_auxiliary_lines() {
    let e = Entry::new("s\n\nx", "p", ";").unwrap();
    assert_eq!(e.additional, ";x;");
}

#[test]
fn parse_password_takes_first_line() {
    let lines = vec!["top".to_string(), "rest".to_string()];
    assert_eq!(Entry::parse_password(&lines).unwrap(), "top");
}

#[test]
fn parse_password_refuses_no_lines() {
    let lines: Vec<String> = Vec::new();
    assert!(matches!(
        Entry::parse_password(&lines),
        Err(Pass2CSVError::NoPassword)
    ));
}

#[test]
fn parse_additional_suffixes_each_line() {
    let lines = vec!["a".to_string(), "b".to_string(), "c".to_string()];
    assert_eq!(Entry::parse_additional(&lines, 1, "|"), "b|c|");
}

#[test]
fn parse_additional_of_nothing_is_empty() {
    let lines = vec!["a".to_string()];
    assert_eq!(Entry::parse_additional(&lines, 1, "|"), "");
}
