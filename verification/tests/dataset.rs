use narmax::dataset::sample_columns;

fn pairs(text: &str) -> Option<Vec<(String, String)>> {
    sample_columns(text.as_bytes()).map(|rows| {
        rows.into_iter()
            .map(|(u, y)| (String::from_utf8(u).unwrap(), String::from_utf8(y).unwrap()))
            .collect()
    })
}

fn owned(rows: &[(&str, &str)]) -> Vec<(String, String)> {
    rows.iter().map(|(u, y)| (u.to_string(), y.to_string())).collect()
}

#[test]
fn second_and_third_fields_of_each_line() {
    assert_eq!(
        pairs("0,1.5,2.5\n1,-3,4e-2\n"),
        Some(owned(&[("1.5", "2.5"), ("-3", "4e-2")]))
    );
}

#[test]
fn last_line_ending_is_optional() {
    assert_eq!(pairs("0,1,2\n1,3,4"), Some(owned(&[("1", "2"), ("3", "4")])));
}

#[test]
fn crlf_line_endings_are_stripped() {
    assert_eq!(pairs("0,1,2\r\n1,3,4\r\n"), Some(owned(&[("1", "2"), ("3", "4")])));
    // A carriage return that does not end a line stays in the field.
    assert_eq!(pairs("0,1,2\r"), Some(owned(&[("1", "2\r")])));
}

#[test]
fn extra_fields_are_ignored() {
    assert_eq!(pairs("t,u,y,z,w\n"), Some(owned(&[("u", "y")])));
    assert_eq!(pairs("a,,\n"), Some(owned(&[("", "")])));
}

#[test]
fn empty_text_has_no_rows() {
    assert_eq!(pairs(""), Some(Vec::new()));
}

#[test]
fn short_lines_are_refused() {
    assert_eq!(pairs("0,1\n"), None);
    assert_eq!(pairs("0,1,2\n5\n"), None);
    // An empty line in the middle has a single, empty field.
    assert_eq!(pairs("0,1,2\n\n1,3,4\n"), None);
}
