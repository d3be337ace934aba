use mapreduce::local_fs::{lines_of, strip_line_ending, PART_FILE_NAME};
use mapreduce::{InputRecord, LocalTextInput, LocalTextOutput};

#[test]
fn reads_records_from_single_file() {
    let records =
        LocalTextInput::records_from_contents(&vec!["hello rust\nhello mapreduce\n".to_string()]);
    assert_eq!(
        records,
        vec![InputRecord::new(0, "hello rust"), InputRecord::new(1, "hello mapreduce")]
    );
}

#[test]
fn records_continue_numbering_across_files() {
    let records = LocalTextInput::records_from_contents(&vec![
        "alpha\n".to_string(),
        String::new(),
        "beta\r\ngamma".to_string(),
    ]);
    assert_eq!(
        records,
        vec![
            InputRecord::new(0, "alpha"),
            InputRecord::new(1, "beta"),
            InputRecord::new(2, "gamma"),
        ]
    );
}

#[test]
fn preserves_last_line_without_trailing_newline() {
    let records = LocalTextInput::records_from_contents(&vec!["hello\nrust".to_string()]);
    assert_eq!(records, vec![InputRecord::new(0, "hello"), InputRecord::new(1, "rust")]);
    assert_eq!(lines_of("hello\nrust"), vec!["hello", "rust"]);
    assert_eq!(lines_of("\n\nx\n"), vec!["", "", "x"]);
    assert!(lines_of("").is_empty());
}

#[test]
fn strips_one_line_ending() {
    let mut line = "text\r\n".to_string();
    strip_line_ending(&mut line);
    assert_eq!(line, "text");
    let mut line = "text\n\n".to_string();
    strip_line_ending(&mut line);
    assert_eq!(line, "text\n");
    let mut line = "text\r".to_string();
    strip_line_ending(&mut line);
    assert_eq!(line, "text\r");
}

#[test]
fn writes_outputs_to_part_file() {
    let text = LocalTextOutput::render(&[
        ("hello".to_string(), "2".to_string()),
        ("rust".to_string(), "1".to_string()),
    ]);
    assert_eq!(text, "hello\t2\nrust\t1\n");
    assert_eq!(LocalTextOutput::render(&[]), "");
    assert_eq!(PART_FILE_NAME, "part-00000");
}
