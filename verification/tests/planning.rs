use bumv::error::RenameError;
use bumv::placeholder::free_placeholder;
use bumv::placeholder::placeholder_path;
use bumv::planner::break_cycles_and_fix_ordering;
use bumv::planner::break_cycles_and_fix_ordering_from;
use bumv::renaming_plan::RenamingPlan;
use bumv::request::RenamingRequest;
use std::cell::RefCell;
use std::collections::BTreeMap;

fn pairs(list: &[(&str, &str)]) -> Vec<(String, String)> {
    list.iter().map(|(a, b)| (a.to_string(), b.to_string())).collect()
}

fn listing(names: &[&str]) -> Vec<String> {
    names.iter().map(|name| name.to_string()).collect()
}

fn nothing_taken(_: &String) -> bool {
    false
}

/// Carries out the steps on files in memory; a step that finds its
/// destination taken or its file missing ends the run.
fn replay(files: &mut BTreeMap<String, String>, steps: &[(String, String)]) -> Result<(), String> {
    for (from, to) in steps {
        if files.contains_key(to) {
            return Err(format!("{} exists", to));
        }
        let content = files.remove(from).ok_or(format!("{} is missing", from))?;
        files.insert(to.clone(), content);
    }
    Ok(())
}

fn files(list: &[(&str, &str)]) -> BTreeMap<String, String> {
    list.iter().map(|(a, b)| (a.to_string(), b.to_string())).collect()
}

#[test]
fn no_renames_no_steps() {
    let plan = break_cycles_and_fix_ordering(&pairs(&[]), nothing_taken).unwrap();
    assert_eq!(plan, pairs(&[]));
}

#[test]
fn single_rename_is_its_own_plan() {
    let plan = break_cycles_and_fix_ordering(&pairs(&[("a", "b")]), nothing_taken).unwrap();
    assert_eq!(plan, pairs(&[("a", "b")]));
}

#[test]
fn chain_is_ordered_from_its_end() {
    let plan =
        break_cycles_and_fix_ordering(&pairs(&[("a", "b"), ("b", "c")]), nothing_taken).unwrap();
    assert_eq!(plan, pairs(&[("b", "c"), ("a", "b")]));
}

#[test]
fn chain_is_ordered_from_its_end_however_it_is_listed() {
    let plan = break_cycles_and_fix_ordering(
        &pairs(&[("c", "d"), ("a", "b"), ("b", "c")]),
        nothing_taken,
    )
    .unwrap();
    assert_eq!(plan, pairs(&[("c", "d"), ("b", "c"), ("a", "b")]));
}

#[test]
fn swap_goes_through_a_temporary_name() {
    let plan =
        break_cycles_and_fix_ordering(&pairs(&[("a", "b"), ("b", "a")]), nothing_taken).unwrap();
    assert_eq!(plan, pairs(&[("b", "b.n0.tmp"), ("a", "b"), ("b.n0.tmp", "a")]));
}

#[test]
fn three_cycle_goes_through_one_temporary_name() {
    let plan = break_cycles_and_fix_ordering(
        &pairs(&[("x", "y"), ("y", "z"), ("z", "x")]),
        nothing_taken,
    )
    .unwrap();
    assert_eq!(
        plan,
        pairs(&[("z", "z.n0.tmp"), ("y", "z"), ("x", "y"), ("z.n0.tmp", "x")])
    );
}

#[test]
fn each_cycle_gets_its_own_temporary_name_with_a_larger_number() {
    let renames = pairs(&[("a", "b"), ("b", "a"), ("c", "d"), ("d", "c"), ("e", "f")]);
    let plan = break_cycles_and_fix_ordering(&renames, nothing_taken).unwrap();
    assert_eq!(plan.len(), 7);
    let deferred = &plan[5..];
    assert!(deferred[0].0.ends_with(".n0.tmp"));
    assert!(deferred[1].0.ends_with(".n1.tmp"));
    let mut disk = files(&[("a", "A"), ("b", "B"), ("c", "C"), ("d", "D"), ("e", "E")]);
    replay(&mut disk, &plan).unwrap();
    assert_eq!(disk, files(&[("a", "B"), ("b", "A"), ("c", "D"), ("d", "C"), ("f", "E")]));
}

#[test]
fn chain_beside_a_cycle_needs_one_temporary_name() {
    let renames = pairs(&[("p", "q"), ("q", "r"), ("x", "y"), ("y", "x")]);
    let plan = break_cycles_and_fix_ordering(&renames, nothing_taken).unwrap();
    let mut disk = files(&[("p", "P"), ("q", "Q"), ("x", "X"), ("y", "Y")]);
    replay(&mut disk, &plan).unwrap();
    assert_eq!(disk, files(&[("q", "P"), ("r", "Q"), ("x", "Y"), ("y", "X")]));
    assert_eq!(plan.len(), 5);
}

#[test]
fn long_chains_are_carried_out_without_a_temporary_name() {
    let names: Vec<String> = (0..40).map(|i| format!("f{}", i)).collect();
    let renames: Vec<(String, String)> =
        (0..39).map(|i| (names[i].clone(), names[i + 1].clone())).collect();
    let plan = break_cycles_and_fix_ordering(&renames, nothing_taken).unwrap();
    assert_eq!(plan.len(), 39);
    let mut disk: BTreeMap<String, String> =
        (0..39).map(|i| (names[i].clone(), format!("content{}", i))).collect();
    replay(&mut disk, &plan).unwrap();
    assert!(!disk.contains_key("f0"));
    for i in 0..39 {
        assert_eq!(disk[&names[i + 1]], format!("content{}", i));
    }
}

#[test]
fn long_cycles_give_each_file_what_the_one_before_it_held() {
    let names: Vec<String> = (0..25).map(|i| format!("f{}", i)).collect();
    let renames: Vec<(String, String)> =
        (0..25).map(|i| (names[i].clone(), names[(i + 1) % 25].clone())).collect();
    let plan = break_cycles_and_fix_ordering(&renames, nothing_taken).unwrap();
    assert_eq!(plan.len(), 26);
    let mut disk: BTreeMap<String, String> =
        (0..25).map(|i| (names[i].clone(), format!("content{}", i))).collect();
    replay(&mut disk, &plan).unwrap();
    assert_eq!(disk.len(), 25);
    for i in 0..25 {
        assert_eq!(disk[&names[(i + 1) % 25]], format!("content{}", i));
    }
}

#[test]
fn temporary_name_that_is_taken_is_passed_over() {
    let probed = RefCell::new(Vec::new());
    let plan = break_cycles_and_fix_ordering(&pairs(&[("a", "b"), ("b", "a")]), |path: &String| {
        probed.borrow_mut().push(path.clone());
        path == "b.n0.tmp" || path == "b.n1.tmp"
    })
    .unwrap();
    assert_eq!(plan, pairs(&[("b", "b.n2.tmp"), ("a", "b"), ("b.n2.tmp", "a")]));
    assert_eq!(*probed.borrow(), listing(&["b.n0.tmp", "b.n1.tmp", "b.n2.tmp"]));
}

#[test]
fn temporary_name_is_never_a_path_of_the_mapping() {
    let renames = pairs(&[("a", "b"), ("b", "a"), ("c", "b.n0.tmp")]);
    let plan = break_cycles_and_fix_ordering(&renames, nothing_taken).unwrap();
    let mut disk = files(&[("a", "A"), ("b", "B"), ("c", "C")]);
    replay(&mut disk, &plan).unwrap();
    assert_eq!(disk, files(&[("a", "B"), ("b", "A"), ("b.n0.tmp", "C")]));
    assert!(plan.contains(&("b.n1.tmp".to_string(), "a".to_string())));
}

#[test]
fn temporary_names_are_numbered_in_decimal() {
    assert_eq!(placeholder_path(&"dir/file1.txt".to_string(), 0), "dir/file1.txt.n0.tmp");
    assert_eq!(placeholder_path(&"a".to_string(), 7), "a.n7.tmp");
    assert_eq!(placeholder_path(&"a".to_string(), 10), "a.n10.tmp");
    assert_eq!(placeholder_path(&"a".to_string(), 1203), "a.n1203.tmp");
    assert_eq!(
        placeholder_path(&"".to_string(), u64::MAX),
        ".n18446744073709551615.tmp"
    );
}

#[test]
fn search_for_a_temporary_name_moves_the_counter_on() {
    let nodes = listing(&["a", "a.n3.tmp"]);
    let mut counter = 3;
    let found = free_placeholder(&|path: &String| path == "a.n4.tmp", &nodes, &"a".to_string(), &mut counter);
    assert_eq!(found, Some("a.n5.tmp".to_string()));
    assert_eq!(counter, 6);
}

#[test]
fn search_for_a_temporary_name_ends_with_the_numbers() {
    let nodes = listing(&["a"]);
    let mut counter = u64::MAX - 2;
    let found = free_placeholder(&|_: &String| true, &nodes, &"a".to_string(), &mut counter);
    assert_eq!(found, None);
    assert_eq!(counter, u64::MAX);
}

#[test]
fn temporary_names_can_be_numbered_from_any_number() {
    let plan = break_cycles_and_fix_ordering_from(
        &pairs(&[("a", "b"), ("b", "a")]),
        |path: &String| path == "b.n41.tmp",
        40,
    )
    .unwrap();
    assert_eq!(plan, pairs(&[("b", "b.n40.tmp"), ("a", "b"), ("b.n40.tmp", "a")]));
    let plan = break_cycles_and_fix_ordering_from(
        &pairs(&[("a", "b"), ("b", "a")]),
        |path: &String| path == "b.n40.tmp",
        40,
    )
    .unwrap();
    assert_eq!(plan, pairs(&[("b", "b.n41.tmp"), ("a", "b"), ("b.n41.tmp", "a")]));
}

#[test]
fn planning_fails_where_the_numbers_end_without_a_free_name() {
    let err = break_cycles_and_fix_ordering_from(
        &pairs(&[("a", "b"), ("b", "a")]),
        |_: &String| true,
        u64::MAX - 3,
    )
    .unwrap_err();
    assert_eq!(err, RenameError::NoFreePlaceholder("b".to_string()));
    assert_eq!(err.message(), "No unused temporary name found for b");
}

#[test]
fn planning_without_a_cycle_needs_no_free_name() {
    let plan = break_cycles_and_fix_ordering_from(
        &pairs(&[("a", "b"), ("b", "c")]),
        |_: &String| true,
        u64::MAX,
    )
    .unwrap();
    assert_eq!(plan, pairs(&[("b", "c"), ("a", "b")]));
}

#[test]
fn plan_of_an_empty_request_is_empty() {
    let request = RenamingRequest::try_new(listing(&["a"]), "a".to_string()).unwrap();
    let plan = RenamingPlan::try_new(request, nothing_taken).unwrap();
    assert!(plan.is_empty());
    assert_eq!(plan.steps(), &pairs(&[]));
    assert_eq!(plan.human_readable_rename_mapping(), "");
}

#[test]
fn plan_is_rendered_in_the_order_of_execution() {
    let request = RenamingRequest::try_new(listing(&["a", "b"]), "b\na".to_string()).unwrap();
    let plan = RenamingPlan::try_new(request, nothing_taken).unwrap();
    assert!(!plan.is_empty());
    assert_eq!(plan.request().mapping(), &pairs(&[("a", "b"), ("b", "a")]));
    assert_eq!(
        plan.human_readable_rename_mapping(),
        "b -> b.n0.tmp\na -> b\nb.n0.tmp -> a"
    );
}

#[test]
fn plan_refuses_to_start_when_the_files_have_changed() {
    let request = RenamingRequest::try_new(listing(&["a", "b"]), "a\nc".to_string()).unwrap();
    let plan = RenamingPlan::try_new(request, nothing_taken).unwrap();
    let err = plan.execute(&listing(&["a", "b", "new"])).unwrap_err();
    assert_eq!(err, RenameError::FilesChanged("new".to_string()));
    assert!(plan.execute(&listing(&["b", "a"])).is_ok());
}

/// A small generator of numbers that gives the same sequence every time.
struct Numbers(u64);

impl Numbers {
    fn next(&mut self, below: usize) -> usize {
        self.0 = self.0.wrapping_mul(6364136223846793005).wrapping_add(1442695040888963407);
        ((self.0 >> 33) as usize) % below
    }
}

#[test]
fn shuffled_names_end_where_they_are_wanted() {
    let mut numbers = Numbers(7);
    for round in 0..200 {
        let n = 1 + numbers.next(12);
        let names: Vec<String> = (0..n).map(|i| format!("dir{}/f{}", i % 3, i)).collect();
        let mut wanted = names.clone();
        for i in (1..n).rev() {
            wanted.swap(i, numbers.next(i + 1));
        }
        // some files leave for names that no file has yet
        for i in 0..n {
            if numbers.next(4) == 0 {
                wanted[i] = format!("new{}/g{}", round, i);
            }
        }
        let renames: Vec<(String, String)> = names
            .iter()
            .cloned()
            .zip(wanted.iter().cloned())
            .filter(|(from, to)| from != to)
            .collect();
        let mut sources: Vec<&String> = renames.iter().map(|pair| &pair.0).collect();
        sources.sort();
        let still_there: Vec<&String> = renames
            .iter()
            .map(|pair| &pair.1)
            .filter(|to| sources.binary_search(to).is_ok())
            .collect();
        let mut disk: BTreeMap<String, String> =
            names.iter().map(|name| (name.clone(), format!("content of {}", name))).collect();
        let plan = break_cycles_and_fix_ordering(&renames, |path: &String| disk.contains_key(path))
            .unwrap();

        assert!(plan.len() >= renames.len());
        assert!(plan.len() - renames.len() <= still_there.len());
        replay(&mut disk, &plan).unwrap();
        assert_eq!(disk.len(), n);
        for (from, to) in names.iter().zip(wanted.iter()) {
            assert_eq!(disk[to], format!("content of {}", from));
        }
    }
}

#[test]
fn one_temporary_name_for_each_cycle() {
    let mut numbers = Numbers(11);
    for _ in 0..200 {
        let n = 1 + numbers.next(10);
        let names: Vec<String> = (0..n).map(|i| format!("f{}", i)).collect();
        let mut target: Vec<usize> = (0..n).collect();
        for i in (1..n).rev() {
            target.swap(i, numbers.next(i + 1));
        }
        let mut cycles = 0;
        let mut seen = vec![false; n];
        for start in 0..n {
            if !seen[start] && target[start] != start {
                cycles += 1;
                let mut at = start;
                while !seen[at] {
                    seen[at] = true;
                    at = target[at];
                }
            }
        }
        let renames: Vec<(String, String)> = (0..n)
            .filter(|&i| target[i] != i)
            .map(|i| (names[i].clone(), names[target[i]].clone()))
            .collect();
        let plan = break_cycles_and_fix_ordering(&renames, nothing_taken).unwrap();
        assert_eq!(plan.len(), renames.len() + cycles);
        for (t, step) in plan[renames.len()..].iter().enumerate() {
            assert!(step.0.ends_with(&format!(".n{}.tmp", t)));
        }
    }
}
