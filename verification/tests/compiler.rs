use solowork::compiler::{source_line, Compiler, FileData};

#[test]
fn file_data_accessors() {
    let mut f = FileData::new(1, "a.rl");
    assert_eq!(f.get_file_id(), 1);
    assert_eq!(f.get_filename(), "a.rl");
    f.change_file_id(9);
    f.change_filename("b.rl");
    assert_eq!(f.get_file_id(), 9);
    assert_eq!(f.get_filename(), "b.rl");
}

#[test]
fn add_and_find_files() {
    let mut c = Compiler::new();
    assert!(!c.is_file_present(1));
    assert_eq!(c.get_filename(1), None);
    assert!(c.add_file(FileData::new(1, "one.rl")));
    assert!(c.is_file_present(1));
    assert_eq!(c.get_filename(1), Some("one.rl".to_string()));
    // a second file with the same id is refused and changes nothing
    assert!(!c.add_file(FileData::new(1, "other.rl")));
    assert_eq!(c.source_files.len(), 1);
    assert_eq!(c.get_filename(1), Some("one.rl".to_string()));
    assert!(c.add_file(FileData::new(2, "two.rl")));
    assert_eq!(c.get_filename(2), Some("two.rl".to_string()));
}

#[test]
fn source_lines() {
    let text = "first\r\nsecond\n\nfourth";
    assert_eq!(source_line(text, 0), None);
    assert_eq!(source_line(text, 1), Some("first".to_string()));
    assert_eq!(source_line(text, 2), Some("second".to_string()));
    assert_eq!(source_line(text, 3), Some("".to_string()));
    assert_eq!(source_line(text, 4), Some("fourth".to_string()));
    assert_eq!(source_line(text, 5), None);
    assert_eq!(source_line("a\n", 2), None);
    assert_eq!(source_line("", 1), None);
    for (i, line) in text.lines().enumerate() {
        assert_eq!(source_line(text, i + 1), Some(line.to_string()));
    }
}
