use bumv::error::RenameError;
use bumv::session::choose_editor;
use bumv::session::editor_needs_wait_flag;
use bumv::session::log_file_name;
use bumv::session::prompt_accepts;
use bumv::text::create_editable_temp_file_content;
use bumv::text::parse_temp_file_content;

fn listing(names: &[&str]) -> Vec<String> {
    names.iter().map(|name| name.to_string()).collect()
}

#[test]
fn content_holds_one_path_per_line() {
    let content = create_editable_temp_file_content(&listing(&["a/file1.txt", "a/file2.txt"]));
    assert_eq!(content, "a/file1.txt\na/file2.txt");
}

#[test]
fn content_of_an_empty_listing_is_empty() {
    assert_eq!(create_editable_temp_file_content(&listing(&[])), "");
    assert_eq!(create_editable_temp_file_content(&listing(&["only"])), "only");
}

#[test]
fn parsing_skips_empty_lines_and_line_endings() {
    let lines = parse_temp_file_content("a\r\n\nb\n\r\nc\r".to_string());
    assert_eq!(lines, listing(&["a", "b", "c\r"]));
}

#[test]
fn parsing_agrees_with_the_lines_of_the_standard_library() {
    for content in ["", "\n", "a", "a\n", "a\nb", "\n\na\n\n", "a\r\nb\r\n", "a\rb\n", "\r\n", "\r", "é\nü"] {
        let expected: Vec<String> = content
            .lines()
            .filter(|line| !line.is_empty())
            .map(|line| line.to_string())
            .collect();
        assert_eq!(parse_temp_file_content(content.to_string()), expected);
    }
}

#[test]
fn parsing_gives_back_what_was_written() {
    let files = listing(&["dir/a b.txt", "dir/ü.txt", "c"]);
    let content = create_editable_temp_file_content(&files);
    assert_eq!(parse_temp_file_content(content), files);
}

#[test]
fn reply_accepts_with_y_or_nothing() {
    assert!(prompt_accepts(""));
    assert!(prompt_accepts("y"));
    assert!(prompt_accepts("Y"));
    assert!(!prompt_accepts("n"));
    assert!(!prompt_accepts("yes"));
    assert!(!prompt_accepts(" "));
    assert!(!prompt_accepts("yy"));
}

#[test]
fn editor_is_vs_code_unless_another_is_named() {
    assert_eq!(choose_editor(true, Some("vim".to_string()), "code"), "code");
    assert_eq!(choose_editor(true, None, "code"), "code");
    assert_eq!(choose_editor(false, Some("vim".to_string()), "code"), "vim");
    assert_eq!(choose_editor(false, None, "code"), "code");
}

#[test]
fn only_vs_code_is_told_to_wait() {
    assert!(editor_needs_wait_flag("code", "code"));
    assert!(!editor_needs_wait_flag("vim", "code"));
    assert!(!editor_needs_wait_flag("code2", "code"));
    assert!(!editor_needs_wait_flag("cod", "code"));
    assert!(!editor_needs_wait_flag("cove", "code"));
}

#[test]
fn log_file_is_named_after_the_time() {
    assert_eq!(log_file_name("20240131_235959"), "bumv_20240131_235959.log");
}

#[test]
fn every_error_has_its_message() {
    assert_eq!(
        RenameError::LineCountMismatch.message(),
        "The number of files in the edited file does not match the original."
    );
    assert_eq!(
        RenameError::NameClash("a".to_string()).message(),
        "There is a name clash in the edited files."
    );
    assert_eq!(
        RenameError::FilesChanged("a".to_string()).message(),
        "The files in the directory changed while you were editing them."
    );
    assert_eq!(
        RenameError::AlreadyExists("dir/a".to_string()).message(),
        "The file dir/a already exists. Aborting."
    );
    assert_eq!(RenameError::Io("disk full".to_string()).message(), "disk full");
    assert_eq!(
        RenameError::NoFreePlaceholder("dir/a".to_string()).message(),
        "No unused temporary name found for dir/a"
    );
}

#[test]
fn details_name_the_path_where_the_message_does_not() {
    assert_eq!(
        RenameError::NameClash("dir/a".to_string()).details(),
        "There is a name clash in the edited files. (dir/a)"
    );
    assert_eq!(
        RenameError::FilesChanged("dir/b".to_string()).details(),
        "The files in the directory changed while you were editing them. (dir/b)"
    );
    assert_eq!(
        RenameError::AlreadyExists("dir/a".to_string()).details(),
        "The file dir/a already exists. Aborting."
    );
    assert_eq!(
        RenameError::LineCountMismatch.details(),
        RenameError::LineCountMismatch.message()
    );
    assert_eq!(RenameError::Io("dir/a: denied".to_string()).details(), "dir/a: denied");
    assert_eq!(
        RenameError::NoFreePlaceholder("dir/a".to_string()).details(),
        "No unused temporary name found for dir/a"
    );
}

#[test]
fn copy_of_an_error_is_equal() {
    let error = RenameError::AlreadyExists("dir/a".to_string());
    assert_eq!(error.duplicate(), error);
    assert_eq!(RenameError::LineCountMismatch.duplicate(), RenameError::LineCountMismatch);
}
