use bumv::error::RenameError;
use bumv::executor::Action;
use bumv::executor::Outcome;
use bumv::executor::RenameRun;
use bumv::renaming_plan::RenamingPlan;
use bumv::request::RenamingRequest;
use bumv::text::create_editable_temp_file_content;
use std::cell::RefCell;
use std::collections::BTreeMap;
use std::collections::BTreeSet;

const ROOT: &str = "/work";

/// A file system in memory: the files with what they hold, and the directories.
struct Disk {
    files: BTreeMap<String, String>,
    directories: BTreeSet<String>,
}

fn parent(path: &str) -> Option<&str> {
    path.rfind('/').map(|at| &path[..at])
}

fn file_name(path: &str) -> &str {
    match path.rfind('/') {
        Some(at) => &path[at + 1..],
        None => path,
    }
}

impl Disk {
    fn new() -> Disk {
        let mut directories = BTreeSet::new();
        directories.insert(ROOT.to_string());
        Disk { files: BTreeMap::new(), directories }
    }

    fn path(relative: &str) -> String {
        format!("{}/{}", ROOT, relative)
    }

    fn create(&mut self, relative: &str, content: &str) {
        let path = Disk::path(relative);
        self.create_dir_all(parent(&path).unwrap());
        self.files.insert(path, content.to_string());
    }

    fn is_there(&self, path: &str) -> bool {
        self.files.contains_key(path) || self.directories.contains(path)
    }

    fn has(&self, relative: &str) -> bool {
        self.is_there(&Disk::path(relative))
    }

    fn read(&self, relative: &str) -> String {
        self.files[&Disk::path(relative)].clone()
    }

    fn create_dir_all(&mut self, directory: &str) {
        let mut directory = directory;
        while !directory.is_empty() && self.directories.insert(directory.to_string()) {
            match parent(directory) {
                Some(above) => directory = above,
                None => break,
            }
        }
    }

    fn rename(&mut self, from: &str, to: &str) -> Result<(), String> {
        match self.files.remove(from) {
            Some(content) => {
                self.files.insert(to.to_string(), content);
                Ok(())
            }
            None => Err(format!("{}: No such file or directory", from)),
        }
    }
}

struct BumvConfiguration {
    recursive: bool,
    no_ignore: bool,
}

/// The files below the root, in the order of their paths. Unless told
/// otherwise, hidden files and the files that `.ignore` names are left out.
fn file_list(disk: &Disk, config: &BumvConfiguration) -> Vec<String> {
    let ignored: Vec<String> = match disk.files.get(&Disk::path(".ignore")) {
        Some(patterns) => patterns.lines().map(|line| line.to_string()).collect(),
        None => Vec::new(),
    };
    let mut result: Vec<String> = disk
        .files
        .keys()
        .filter(|path| config.recursive || parent(path) == Some(ROOT))
        .filter(|path| {
            config.no_ignore
                || !(file_name(path).starts_with('.') || ignored.iter().any(|name| name == file_name(path)))
        })
        .cloned()
        .collect();
    result.sort();
    result
}

fn perform(disk: &RefCell<Disk>, mut run: RenameRun) -> Result<(), RenameError> {
    loop {
        let outcome = match run.pending() {
            Action::PrepareDirectory(path) => {
                if let Some(directory) = parent(&path) {
                    if !disk.borrow().is_there(directory) {
                        disk.borrow_mut().create_dir_all(directory);
                    }
                }
                Outcome::Done
            }
            Action::ProbeDestination(path) => Outcome::Exists(disk.borrow().is_there(&path)),
            Action::Rename(from, to) => match disk.borrow_mut().rename(&from, &to) {
                Ok(()) => Outcome::Done,
                Err(reason) => Outcome::Failure(reason),
            },
            Action::Finish => return Ok(()),
            Action::Abort(error) => return Err(error),
        };
        run.advance(outcome);
    }
}

fn bulk_rename(
    disk: &RefCell<Disk>,
    config: BumvConfiguration,
    edit_function: impl Fn(String) -> String,
    prompt_function: impl FnOnce(String) -> bool,
) -> Result<(), RenameError> {
    let original_filenames = file_list(&disk.borrow(), &config);
    let content = create_editable_temp_file_content(&original_filenames);
    let request = RenamingRequest::try_new(original_filenames, edit_function(content))?;
    let plan = RenamingPlan::try_new(request, |path: &String| disk.borrow().is_there(path))?;
    if !plan.is_empty() {
        if prompt_function(plan.human_readable_rename_mapping()) {
            let current = file_list(&disk.borrow(), &config);
            let run = plan.execute(&current)?;
            perform(disk, run)?;
        }
    }
    Ok(())
}

fn prompt_function(prompt: String) -> bool {
    println!("prompt:\n{}", prompt);
    true
}

fn create_test_files() -> RefCell<Disk> {
    let mut disk = Disk::new();
    disk.create(".ignore", "ignored.txt\nalso_ignored.txt");
    disk.create("file1.txt", "file1_content");
    disk.create("file2.txt", "file2_content");
    disk.create("ignored.txt", "");
    disk.create("subdir/file3.txt", "file3_content");
    disk.create("subdir/file4.txt", "");
    RefCell::new(disk)
}

fn assert_no_filenames_changed(disk: &RefCell<Disk>) {
    let disk = disk.borrow();
    assert!(disk.has(".ignore"));
    assert!(disk.has("file1.txt"));
    assert!(disk.has("file2.txt"));
    assert!(disk.has("ignored.txt"));
    assert!(disk.has("subdir/file3.txt"));
    assert!(disk.has("subdir/file4.txt"));
}

#[test]
fn test_create_temp_file_content() {
    let disk = create_test_files();
    let files = file_list(&disk.borrow(), &BumvConfiguration { recursive: true, no_ignore: false });

    let content = create_editable_temp_file_content(&files);

    let lines: Vec<_> = content.split('\n').collect();
    assert_eq!(lines.len(), 4);
    assert!(lines[0].ends_with("/file1.txt"));
    assert!(lines[1].ends_with("/file2.txt"));
    assert!(lines[2].ends_with("/subdir/file3.txt"));
    assert!(lines[3].ends_with("/subdir/file4.txt"));
}

#[test]
fn scenario_test_rename_files() {
    let disk = create_test_files();
    let config = BumvConfiguration { recursive: false, no_ignore: false };
    let prompted = RefCell::new(false);

    bulk_rename(
        &disk,
        config,
        |content| content.replace("file1.txt", "renamed_file1.txt"),
        |prompt: String| {
            let (from, to) = prompt.split_once(" -> ").unwrap();
            assert!(from.ends_with("file1.txt"));
            assert!(to.ends_with("renamed_file1.txt"));
            *prompted.borrow_mut() = true;
            true
        },
    )
    .unwrap();

    assert!(*prompted.borrow());
    let disk = disk.borrow();
    assert!(disk.has(".ignore"));
    assert!(!disk.has("file1.txt"));
    assert!(disk.has("renamed_file1.txt"));
    assert!(disk.has("file2.txt"));
    assert!(disk.has("ignored.txt"));
    assert!(disk.has("subdir/file3.txt"));
    assert!(disk.has("subdir/file4.txt"));
}

#[test]
fn scenario_test_rename_files_recursive() {
    let disk = create_test_files();
    let config = BumvConfiguration { recursive: true, no_ignore: false };
    let prompted = RefCell::new(false);

    bulk_rename(
        &disk,
        config,
        |content| {
            content
                .replace("file1.txt", "renamed_file1.txt")
                .replace("/subdir/file3.txt", "/subdir/renamed_file3.txt")
        },
        |prompt: String| {
            let (rename_prompt_1, rename_prompt_2) = {
                let (rename_prompt_a, rename_prompt_b) = prompt.split_once('\n').unwrap();
                if rename_prompt_a.contains("renamed_file1") {
                    (rename_prompt_a, rename_prompt_b)
                } else {
                    (rename_prompt_b, rename_prompt_a)
                }
            };
            let (from, to) = rename_prompt_1.split_once(" -> ").unwrap();
            assert!(from.ends_with("file1.txt"));
            assert!(to.ends_with("renamed_file1.txt"));
            let (from, to) = rename_prompt_2.split_once(" -> ").unwrap();
            assert!(from.ends_with("/subdir/file3.txt"));
            assert!(to.ends_with("/subdir/renamed_file3.txt"));
            *prompted.borrow_mut() = true;
            true
        },
    )
    .unwrap();

    assert!(*prompted.borrow());
    let disk = disk.borrow();
    assert!(disk.has(".ignore"));
    assert!(!disk.has("file1.txt"));
    assert!(disk.has("renamed_file1.txt"));
    assert!(disk.has("file2.txt"));
    assert!(disk.has("ignored.txt"));
    assert!(!disk.has("subdir/file3.txt"));
    assert!(disk.has("subdir/renamed_file3.txt"));
    assert!(disk.has("subdir/file4.txt"));
}

#[test]
fn scenario_test_detect_duplicate_target_names() {
    let disk = create_test_files();
    let config = BumvConfiguration { recursive: false, no_ignore: false };

    let err = bulk_rename(
        &disk,
        config,
        |content| content.replace("file1.txt", "file2.txt"),
        prompt_function,
    )
    .unwrap_err();

    assert_eq!(err.message(), "There is a name clash in the edited files.");
    assert!(matches!(err, RenameError::NameClash(_)));
    assert_no_filenames_changed(&disk);
}

#[test]
fn scenario_test_detect_invalid_editing() {
    let disk = create_test_files();
    let config = BumvConfiguration { recursive: false, no_ignore: false };

    let err = bulk_rename(&disk, config, |_| "file1".to_string(), prompt_function).unwrap_err();

    assert_eq!(
        err.message(),
        "The number of files in the edited file does not match the original."
    );
    assert_eq!(err, RenameError::LineCountMismatch);
    assert_no_filenames_changed(&disk);
}

#[test]
fn scenario_test_detect_directory_renaming() {
    let disk = create_test_files();
    let config = BumvConfiguration { recursive: true, no_ignore: false };

    bulk_rename(&disk, config, |content| content.replace("subdir", "superdir"), prompt_function)
        .unwrap();

    let disk = disk.borrow();
    assert!(disk.has(".ignore"));
    assert!(disk.has("file1.txt"));
    assert!(disk.has("file2.txt"));
    assert!(disk.has("ignored.txt"));
    assert!(!disk.has("subdir/file3.txt"));
    assert!(!disk.has("subdir/file4.txt"));
    assert!(disk.has("superdir/file3.txt"));
    assert!(disk.has("superdir/file4.txt"));
    assert!(disk.has("subdir"));
    assert!(disk.has("superdir"));
}

#[test]
fn scenario_test_detect_changed_files() {
    let disk = create_test_files();
    let config = BumvConfiguration { recursive: false, no_ignore: false };

    let err = bulk_rename(
        &disk,
        config,
        |content| content.replace("file1.txt", "renamed_file1.txt"),
        |_| {
            disk.borrow_mut().create("renamed_file1.txt", "");
            true
        },
    )
    .unwrap_err();

    assert_eq!(
        err.message(),
        "The files in the directory changed while you were editing them."
    );
    assert_eq!(err, RenameError::FilesChanged(Disk::path("renamed_file1.txt")));
    assert_no_filenames_changed(&disk);
}

#[test]
fn scenario_test_detect_overwrite_of_file_not_part_of_listing() {
    let disk = create_test_files();
    let config = BumvConfiguration { recursive: false, no_ignore: false };

    let err = bulk_rename(
        &disk,
        config,
        |content| content.replace("file1.txt", "ignored.txt"),
        prompt_function,
    )
    .unwrap_err();

    assert!(err.message().contains("ignored.txt already exists"));
    assert_eq!(err, RenameError::AlreadyExists(Disk::path("ignored.txt")));
    assert_no_filenames_changed(&disk);
    assert_eq!(disk.borrow().read("file1.txt"), "file1_content");
    assert_eq!(disk.borrow().read("ignored.txt"), "");
}

#[test]
fn scenario_test_detect_overwrite_of_new_file_not_part_of_listing() {
    let disk = create_test_files();
    let config = BumvConfiguration { recursive: false, no_ignore: false };

    let err = bulk_rename(
        &disk,
        config,
        |content| content.replace("file1.txt", "also_ignored.txt"),
        |_| {
            disk.borrow_mut().create("also_ignored.txt", "");
            true
        },
    )
    .unwrap_err();

    assert!(err.message().contains("also_ignored.txt already exists"));
    assert!(disk.borrow().has("file1.txt"));
}

#[test]
fn scenario_test_detect_fix_renaming_order() {
    let disk = create_test_files();
    let config = BumvConfiguration { recursive: false, no_ignore: false };

    bulk_rename(
        &disk,
        config,
        |content| content.replace("file2.txt", "file3.txt").replace("file1.txt", "file2.txt"),
        prompt_function,
    )
    .unwrap();

    let disk = disk.borrow();
    assert!(disk.has(".ignore"));
    assert!(!disk.has("file1.txt"));
    assert!(disk.has("file2.txt"));
    assert_eq!(disk.read("file2.txt"), "file1_content");
    assert!(disk.has("file3.txt"));
    assert_eq!(disk.read("file3.txt"), "file2_content");
    assert!(disk.has("ignored.txt"));
    assert!(disk.has("subdir/file3.txt"));
    assert!(disk.has("subdir/file4.txt"));
}

#[test]
fn direct_cycle_test() {
    let disk = create_test_files();
    let config = BumvConfiguration { recursive: false, no_ignore: false };

    bulk_rename(
        &disk,
        config,
        |content| {
            content
                .replace("file1.txt", "some_temporary_string")
                .replace("file2.txt", "file1.txt")
                .replace("some_temporary_string", "file2.txt")
        },
        prompt_function,
    )
    .unwrap();

    assert_no_filenames_changed(&disk);
    assert_eq!(disk.borrow().read("file1.txt"), "file2_content");
    assert_eq!(disk.borrow().read("file2.txt"), "file1_content");
    assert_eq!(disk.borrow().files.len(), 6);
}

#[test]
fn longer_cycle_test() {
    let disk = create_test_files();
    let config = BumvConfiguration { recursive: true, no_ignore: false };

    bulk_rename(
        &disk,
        config,
        |content| {
            content
                .replace("file1.txt", "some_temporary_string")
                .replace("subdir/file3.txt", "file1.txt")
                .replace("file2.txt", "subdir/file3.txt")
                .replace("some_temporary_string", "file2.txt")
        },
        prompt_function,
    )
    .unwrap();

    assert_no_filenames_changed(&disk);
    assert_eq!(disk.borrow().read("file1.txt"), "file3_content");
    assert_eq!(disk.borrow().read("file2.txt"), "file1_content");
    assert_eq!(disk.borrow().read("subdir/file3.txt"), "file2_content");
    assert_eq!(disk.borrow().files.len(), 6);
}

#[test]
fn declined_renames_change_nothing() {
    let disk = create_test_files();
    let config = BumvConfiguration { recursive: false, no_ignore: false };

    bulk_rename(&disk, config, |content| content.replace("file1.txt", "other.txt"), |_| false)
        .unwrap();

    assert_no_filenames_changed(&disk);
    assert!(!disk.borrow().has("other.txt"));
}
