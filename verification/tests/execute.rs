use backup_deduplicator::hash::{GeneralHash, GeneralHashType};
use backup_deduplicator::path::FilePath;
use backup_deduplicator::stages::dedup::output::DeduplicationAction;
use backup_deduplicator::stages::execute::cmd::{
    check_entry, count_children, decide_action, lookup_locations, move_folder, move_target, resolve, ActionDecision,
    EntryCheck, ExecuteAction, ExecuteActionType, Resolution,
};

fn location(parts: &[&str]) -> Vec<String> {
    parts.iter().map(|s| s.to_string()).collect()
}

fn path(parts: &[&str]) -> FilePath {
    FilePath { path: vec![location(parts)] }
}

fn remove_file(p: FilePath, remaining: Vec<FilePath>) -> DeduplicationAction {
    DeduplicationAction::RemoveFile {
        path: p,
        remaining_duplicates: remaining,
        hash: GeneralHash { hash_type: GeneralHashType::XXH64, value: vec![9; 8] },
        size: 10,
        modification_time: 100,
    }
}

#[test]
fn action_types_parse() {
    assert_eq!(ExecuteActionType::parse("delete").unwrap(), ExecuteActionType::DeleteDuplicates);
    assert_eq!(ExecuteActionType::parse("d").unwrap(), ExecuteActionType::DeleteDuplicates);
    assert_eq!(ExecuteActionType::parse("move").unwrap(), ExecuteActionType::MoveDuplicates);
    assert_eq!("m".parse::<ExecuteActionType>().unwrap(), ExecuteActionType::MoveDuplicates);
    assert_eq!(ExecuteActionType::parse("copy").unwrap_err().text, "copy");
    assert!(ExecuteActionType::parse("Delete").is_err());
}

#[test]
fn lookup_joins_relative_and_keeps_absolute_locations() {
    let folders = vec![location(&["/", "mnt"]), location(&["/", "srv"])];
    let relative = remove_file(FilePath { path: vec![location(&["data", "f"])] }, vec![]);
    assert_eq!(
        lookup_locations(&relative, &folders),
        Some(vec![location(&["/", "mnt", "data", "f"]), location(&["/", "srv", "data", "f"])])
    );
    let absolute = remove_file(path(&["/", "data", "f"]), vec![]);
    assert_eq!(lookup_locations(&absolute, &folders), Some(vec![location(&["/", "data", "f"]); 2]));
    let pathless = remove_file(FilePath { path: Vec::new() }, vec![]);
    assert_eq!(lookup_locations(&pathless, &folders), None);
}

#[test]
fn resolution_takes_first_existing_location() {
    assert_eq!(resolve(&vec![false, true, true], false), Resolution::Found(1));
    assert_eq!(resolve(&vec![false, false], true), Resolution::Skipped);
    assert_eq!(resolve(&vec![false], false), Resolution::Failed);
    assert_eq!(resolve(&Vec::new(), false), Resolution::Failed);
}

#[test]
fn decisions_skip_archives_unresolved_and_lonely_files() {
    let mut untouchable = Vec::new();
    let inside_archive = remove_file(
        FilePath { path: vec![location(&["/", "a.zip"]), location(&["x"])] },
        vec![path(&["/", "b"])],
    );
    let found = location(&["/", "a"]);
    assert_eq!(decide_action(&inside_archive, Some(&found), &mut untouchable), ActionDecision::SkipArchive);
    let plain = remove_file(path(&["/", "a"]), vec![path(&["/", "b"])]);
    assert_eq!(decide_action(&plain, None, &mut untouchable), ActionDecision::SkipUnresolved);
    let lonely = remove_file(path(&["/", "a"]), vec![]);
    assert_eq!(decide_action(&lonely, Some(&found), &mut untouchable), ActionDecision::SkipAllDuplicates);
    assert!(untouchable.is_empty());
}

#[test]
fn remaining_duplicates_and_their_ancestors_become_untouchable() {
    let mut untouchable = Vec::new();
    let first = remove_file(path(&["/", "x", "f"]), vec![path(&["/", "keep", "f"])]);
    assert_eq!(decide_action(&first, Some(&location(&["/", "x", "f"])), &mut untouchable), ActionDecision::Proceed);
    assert_eq!(untouchable, vec![location(&["/", "keep", "f"]), location(&["/", "keep"]), location(&["/"])]);
    let second = remove_file(path(&["/", "keep"]), vec![path(&["/", "other"])]);
    assert_eq!(decide_action(&second, Some(&location(&["/", "keep"])), &mut untouchable), ActionDecision::SkipUntouchable);
}

#[test]
fn entry_checks_compare_size_time_and_git() {
    let action = remove_file(path(&["/", "a"]), vec![path(&["/", "b"])]);
    assert_eq!(check_entry(&action, &location(&["/", "a"]), 11, 100), EntryCheck::SizeMismatch);
    assert_eq!(
        check_entry(&action, &location(&["/", "a"]), 10, 100),
        EntryCheck::Proceed { modification_mismatch: false }
    );
    assert_eq!(
        check_entry(&action, &location(&["/", "a"]), 10, 101),
        EntryCheck::Proceed { modification_mismatch: true }
    );
    assert_eq!(
        check_entry(&action, &location(&["/", "repo", ".git", "x"]), 10, 100),
        EntryCheck::GitEntry { modification_mismatch: false }
    );
}

#[test]
fn children_named_like_the_move_folder_do_not_count() {
    let names = vec![Some("a".to_string()), Some("dups".to_string()), None, Some("b".to_string())];
    assert_eq!(count_children(&names, &ExecuteAction::DeleteDuplicates), 4);
    assert_eq!(count_children(&names, &ExecuteAction::MoveDuplicates { folder_name: "dups".to_string() }), 3);
}

#[test]
fn moved_entries_go_into_a_folder_next_to_them() {
    let folder = move_folder(&location(&["/", "d", "f"]), &location(&["dups"])).unwrap();
    assert_eq!(folder, location(&["/", "d", "dups"]));
    assert_eq!(move_target(&location(&["/", "d", "f"]), &folder), Some(location(&["/", "d", "dups", "f"])));
    assert_eq!(move_folder(&location(&["/"]), &location(&["dups"])), None);
    assert_eq!(move_target(&location(&["/", "d", ".."]), &folder), None);
}
