use bumv::error::RenameError;
use bumv::listing::find_duplicate;
use bumv::listing::find_path;
use bumv::request::RenamingRequest;

fn listing(names: &[&str]) -> Vec<String> {
    names.iter().map(|name| name.to_string()).collect()
}

fn pairs(list: &[(&str, &str)]) -> Vec<(String, String)> {
    list.iter().map(|(a, b)| (a.to_string(), b.to_string())).collect()
}

#[test]
fn unchanged_lines_ask_for_nothing() {
    let request = RenamingRequest::try_new(listing(&["a", "b"]), "a\nb\n".to_string()).unwrap();
    assert!(request.is_empty());
    assert_eq!(request.mapping(), &pairs(&[]));
    assert_eq!(request.all_files_at_creation_time(), &listing(&["a", "b"]));
}

#[test]
fn changed_lines_become_renames_in_the_order_of_the_listing() {
    let request =
        RenamingRequest::try_new(listing(&["a", "b", "c", "d"]), "x\nb\nd\nc".to_string()).unwrap();
    assert!(!request.is_empty());
    assert_eq!(request.mapping(), &pairs(&[("a", "x"), ("c", "d"), ("d", "c")]));
}

#[test]
fn renames_into_other_directories_are_accepted() {
    let request =
        RenamingRequest::try_new(listing(&["dir/a"]), "other/deeper/a".to_string()).unwrap();
    assert_eq!(request.mapping(), &pairs(&[("dir/a", "other/deeper/a")]));
}

#[test]
fn empty_listing_with_empty_edit_is_valid() {
    let request = RenamingRequest::try_new(listing(&[]), "".to_string()).unwrap();
    assert!(request.is_empty());
}

#[test]
fn fewer_lines_are_a_mismatch() {
    let err = RenamingRequest::try_new(listing(&["a", "b"]), "a\n".to_string()).unwrap_err();
    assert_eq!(err, RenameError::LineCountMismatch);
    assert_eq!(
        err.message(),
        "The number of files in the edited file does not match the original."
    );
}

#[test]
fn more_lines_are_a_mismatch() {
    let err = RenamingRequest::try_new(listing(&["a"]), "a\nb".to_string()).unwrap_err();
    assert_eq!(err, RenameError::LineCountMismatch);
}

#[test]
fn mismatch_is_found_before_a_name_clash() {
    let err = RenamingRequest::try_new(listing(&["a"]), "c\nc".to_string()).unwrap_err();
    assert_eq!(err, RenameError::LineCountMismatch);
}

#[test]
fn duplicate_destination_is_a_name_clash() {
    let err = RenamingRequest::try_new(listing(&["a", "b"]), "c\nc\n".to_string()).unwrap_err();
    assert_eq!(err, RenameError::NameClash("c".to_string()));
    assert_eq!(err.message(), "There is a name clash in the edited files.");
}

#[test]
fn renaming_onto_an_unchanged_line_is_a_name_clash() {
    let err = RenamingRequest::try_new(listing(&["a", "b"]), "b\nb".to_string()).unwrap_err();
    assert_eq!(err, RenameError::NameClash("b".to_string()));
}

#[test]
fn validation_gives_the_same_result_twice() {
    let first = RenamingRequest::try_new(listing(&["a", "b", "c"]), "b\na\nc".to_string()).unwrap();
    let second = RenamingRequest::try_new(listing(&["a", "b", "c"]), "b\na\nc".to_string()).unwrap();
    assert_eq!(first.mapping(), second.mapping());
    assert_eq!(first.mapping(), &pairs(&[("a", "b"), ("b", "a")]));
}

#[test]
fn validating_the_result_of_a_validation_changes_nothing() {
    let first = RenamingRequest::try_new(listing(&["a", "b", "c"]), "x\nb\ny".to_string()).unwrap();
    let sources: Vec<String> = first.mapping().iter().map(|pair| pair.0.clone()).collect();
    let destinations: Vec<String> = first.mapping().iter().map(|pair| pair.1.clone()).collect();
    let again = RenamingRequest::try_new(sources, destinations.join("\n")).unwrap();
    assert_eq!(again.mapping(), first.mapping());
}

#[test]
fn guard_accepts_the_same_files() {
    let request = RenamingRequest::try_new(listing(&["a", "b"]), "a\nc".to_string()).unwrap();
    assert_eq!(request.ensure_files_did_not_change(&listing(&["a", "b"])), Ok(()));
}

#[test]
fn guard_compares_as_sets() {
    let request = RenamingRequest::try_new(listing(&["a", "b"]), "a\nc".to_string()).unwrap();
    assert_eq!(request.ensure_files_did_not_change(&listing(&["b", "a"])), Ok(()));
}

#[test]
fn guard_rejects_an_added_file_that_no_rename_concerns() {
    let request = RenamingRequest::try_new(listing(&["a", "b"]), "a\nc".to_string()).unwrap();
    let err = request.ensure_files_did_not_change(&listing(&["a", "b", "z"])).unwrap_err();
    assert_eq!(err, RenameError::FilesChanged("z".to_string()));
    assert_eq!(
        err.message(),
        "The files in the directory changed while you were editing them."
    );
}

#[test]
fn guard_rejects_a_removed_file_that_no_rename_concerns() {
    let request = RenamingRequest::try_new(listing(&["a", "b"]), "a\nc".to_string()).unwrap();
    let err = request.ensure_files_did_not_change(&listing(&["b"])).unwrap_err();
    assert_eq!(err, RenameError::FilesChanged("a".to_string()));
}

#[test]
fn guard_rejects_a_replaced_file() {
    let request = RenamingRequest::try_new(listing(&["a", "b"]), "a\nc".to_string()).unwrap();
    let err = request.ensure_files_did_not_change(&listing(&["a", "c"])).unwrap_err();
    assert_eq!(err, RenameError::FilesChanged("b".to_string()));
}

#[test]
fn log_lists_the_renames_in_two_columns() {
    let request =
        RenamingRequest::try_new(listing(&["a", "long_name", "c"]), "x\nb\nc".to_string()).unwrap();
    assert_eq!(request.renaming_log_content(), "a        \tx\nlong_name\tb");
}

#[test]
fn log_of_nothing_is_empty() {
    let request = RenamingRequest::try_new(listing(&["a"]), "a".to_string()).unwrap();
    assert_eq!(request.renaming_log_content(), "");
}

#[test]
fn log_width_counts_bytes_and_padding_counts_characters() {
    let request = RenamingRequest::try_new(listing(&["é", "ab"]), "x\ny".to_string()).unwrap();
    assert_eq!(request.renaming_log_content(), "é \tx\nab\ty");
}

#[test]
fn paths_are_found_by_their_exact_value() {
    let paths = listing(&["a", "b", "a/b"]);
    assert_eq!(find_path(&paths, &"b".to_string()), Some(1));
    assert_eq!(find_path(&paths, &"a/b".to_string()), Some(2));
    assert_eq!(find_path(&paths, &"a/".to_string()), None);
    assert_eq!(find_path(&listing(&[]), &"a".to_string()), None);
}

#[test]
fn first_repetition_is_found() {
    assert_eq!(find_duplicate(&listing(&["a", "b", "c"])), None);
    assert_eq!(find_duplicate(&listing(&["a", "b", "a", "b"])), Some(2));
    assert_eq!(find_duplicate(&listing(&["a", "b", "b", "a"])), Some(2));
    assert_eq!(find_duplicate(&listing(&[])), None);
}
