use bumv::error::RenameError;
use bumv::executor::rename_files;
use bumv::executor::Action;
use bumv::executor::Outcome;
use bumv::executor::RenameRun;
use bumv::renaming_plan::RenamingPlan;
use bumv::request::RenamingRequest;
use std::collections::BTreeMap;

fn pairs(list: &[(&str, &str)]) -> Vec<(String, String)> {
    list.iter().map(|(a, b)| (a.to_string(), b.to_string())).collect()
}

fn text(s: &str) -> String {
    s.to_string()
}

/// Performs what the run asks for on files in memory and lists the renames
/// that it performed.
fn perform(run: &mut RenameRun, files: &mut BTreeMap<String, String>) -> Vec<(String, String)> {
    let mut renamed = Vec::new();
    loop {
        let outcome = match run.pending() {
            Action::PrepareDirectory(_) => Outcome::Done,
            Action::ProbeDestination(path) => Outcome::Exists(files.contains_key(&path)),
            Action::Rename(from, to) => match files.remove(&from) {
                Some(content) => {
                    files.insert(to.clone(), content);
                    renamed.push((from, to));
                    Outcome::Done
                }
                None => Outcome::Failure(format!("{}: not found", from)),
            },
            Action::Finish | Action::Abort(_) => return renamed,
        };
        run.advance(outcome);
    }
}

fn files(list: &[(&str, &str)]) -> BTreeMap<String, String> {
    list.iter().map(|(a, b)| (a.to_string(), b.to_string())).collect()
}

#[test]
fn run_without_steps_is_finished() {
    let run = rename_files(&pairs(&[]));
    assert_eq!(run.pending(), Action::Finish);
    assert_eq!(run.result(), Some(Ok(())));
    assert!(!run.is_active());
    assert_eq!(run.steps_applied(), 0);
}

#[test]
fn each_step_asks_for_directory_then_probe_then_rename() {
    let mut run = rename_files(&pairs(&[("a", "dir/b"), ("c", "d")]));
    assert!(run.is_active());
    assert_eq!(run.result(), None);
    assert_eq!(run.pending(), Action::PrepareDirectory(text("dir/b")));
    run.advance(Outcome::Done);
    assert_eq!(run.pending(), Action::ProbeDestination(text("dir/b")));
    run.advance(Outcome::Exists(false));
    assert_eq!(run.pending(), Action::Rename(text("a"), text("dir/b")));
    assert_eq!(run.steps_applied(), 0);
    run.advance(Outcome::Done);
    assert_eq!(run.steps_applied(), 1);
    assert_eq!(run.pending(), Action::PrepareDirectory(text("d")));
    run.advance(Outcome::Done);
    assert_eq!(run.pending(), Action::ProbeDestination(text("d")));
    run.advance(Outcome::Exists(false));
    assert_eq!(run.pending(), Action::Rename(text("c"), text("d")));
    run.advance(Outcome::Done);
    assert_eq!(run.pending(), Action::Finish);
    assert_eq!(run.steps_applied(), 2);
    assert_eq!(run.result(), Some(Ok(())));
}

#[test]
fn existing_destination_ends_the_run_before_the_rename() {
    let mut run = RenameRun::new(pairs(&[("a", "b"), ("c", "d")]));
    run.advance(Outcome::Done);
    run.advance(Outcome::Exists(false));
    run.advance(Outcome::Done);
    run.advance(Outcome::Done);
    run.advance(Outcome::Exists(true));
    assert_eq!(run.pending(), Action::Abort(RenameError::AlreadyExists(text("d"))));
    assert_eq!(run.result(), Some(Err(RenameError::AlreadyExists(text("d")))));
    assert_eq!(run.steps_applied(), 1);
    assert!(!run.is_active());
    run.advance(Outcome::Done);
    run.advance(Outcome::Exists(false));
    assert_eq!(run.pending(), Action::Abort(RenameError::AlreadyExists(text("d"))));
    assert_eq!(run.steps_applied(), 1);
}

#[test]
fn failure_of_an_operation_ends_the_run() {
    let mut run = rename_files(&pairs(&[("a", "b")]));
    run.advance(Outcome::Failure(text("permission denied")));
    assert_eq!(run.pending(), Action::Abort(RenameError::Io(text("permission denied"))));

    let mut run = rename_files(&pairs(&[("a", "b")]));
    run.advance(Outcome::Done);
    run.advance(Outcome::Exists(false));
    run.advance(Outcome::Failure(text("cross-device link")));
    assert_eq!(run.result(), Some(Err(RenameError::Io(text("cross-device link")))));
    assert_eq!(run.steps_applied(), 0);
}

#[test]
fn outcome_that_answers_nothing_is_passed_over() {
    let mut run = rename_files(&pairs(&[("a", "b")]));
    run.advance(Outcome::Exists(true));
    assert_eq!(run.pending(), Action::PrepareDirectory(text("b")));
    run.advance(Outcome::Done);
    run.advance(Outcome::Done);
    assert_eq!(run.pending(), Action::ProbeDestination(text("b")));
    run.advance(Outcome::Exists(false));
    run.advance(Outcome::Exists(false));
    assert_eq!(run.pending(), Action::Rename(text("a"), text("b")));
    run.advance(Outcome::Done);
    run.advance(Outcome::Failure(text("late")));
    assert_eq!(run.result(), Some(Ok(())));
}

#[test]
fn destination_that_exists_beside_the_mapping_is_a_collision() {
    let request = RenamingRequest::try_new(vec![text("a")], text("b")).unwrap();
    let plan = RenamingPlan::try_new(request, |_: &String| false).unwrap();
    let mut disk = files(&[("a", "A"), ("b", "B")]);
    let mut run = plan.execute(&vec![text("a")]).unwrap();
    let renamed = perform(&mut run, &mut disk);
    assert_eq!(run.result(), Some(Err(RenameError::AlreadyExists(text("b")))));
    assert_eq!(renamed, pairs(&[]));
    assert_eq!(disk, files(&[("a", "A"), ("b", "B")]));
}

#[test]
fn steps_before_a_collision_stay_applied() {
    let request =
        RenamingRequest::try_new(vec![text("a"), text("c")], text("b\nd")).unwrap();
    let plan = RenamingPlan::try_new(request, |_: &String| false).unwrap();
    let first_destination = plan.steps()[0].1.clone();
    let second = plan.steps()[1].clone();
    let mut disk = files(&[("a", "A"), ("c", "C")]);
    disk.insert(second.1.clone(), text("taken"));
    let mut run = plan.execute(&vec![text("a"), text("c")]).unwrap();
    let renamed = perform(&mut run, &mut disk);
    assert_eq!(run.result(), Some(Err(RenameError::AlreadyExists(second.1.clone()))));
    assert_eq!(run.steps_applied(), 1);
    assert_eq!(renamed, vec![plan.steps()[0].clone()]);
    assert!(disk.contains_key(&first_destination));
    assert!(disk.contains_key(&second.0));
    assert_eq!(disk[&second.1], "taken");
}

#[test]
fn duplicate_destination_changes_no_file() {
    let disk = files(&[("a", "A"), ("b", "B")]);
    let err = RenamingRequest::try_new(vec![text("a"), text("b")], text("c\nc")).unwrap_err();
    assert_eq!(err, RenameError::NameClash(text("c")));
    assert_eq!(disk, files(&[("a", "A"), ("b", "B")]));
}

#[test]
fn swap_exchanges_what_the_files_hold() {
    let request =
        RenamingRequest::try_new(vec![text("a"), text("b")], text("b\na")).unwrap();
    let plan = RenamingPlan::try_new(request, |_: &String| false).unwrap();
    let mut disk = files(&[("a", "A"), ("b", "B")]);
    let mut run = plan.execute(&vec![text("a"), text("b")]).unwrap();
    perform(&mut run, &mut disk);
    assert_eq!(run.result(), Some(Ok(())));
    assert_eq!(disk, files(&[("a", "B"), ("b", "A")]));
}

#[test]
fn three_cycle_moves_each_file_on_by_one() {
    let request = RenamingRequest::try_new(
        vec![text("x"), text("y"), text("z")],
        text("y\nz\nx"),
    )
    .unwrap();
    let plan = RenamingPlan::try_new(request, |_: &String| false).unwrap();
    let mut disk = files(&[("x", "X"), ("y", "Y"), ("z", "Z")]);
    let mut run = plan.execute(&vec![text("x"), text("y"), text("z")]).unwrap();
    perform(&mut run, &mut disk);
    assert_eq!(run.result(), Some(Ok(())));
    assert_eq!(disk, files(&[("x", "Z"), ("y", "X"), ("z", "Y")]));
}
