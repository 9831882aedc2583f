use backup_deduplicator::hash::{GeneralHash, GeneralHashType};
use backup_deduplicator::path::FilePath;
use backup_deduplicator::stages::analyze::output::{ConflictingEntry, DupSetEntry, DupSetFile, DupSetFileVersion};
use backup_deduplicator::stages::build::output::HashTreeFileEntryType;
use backup_deduplicator::stages::dedup::golden_model::cmd::MatchingModel;
use backup_deduplicator::stages::dedup::incremental_golden_model::cmd::{
    directory_matchers, last_directory_match, match_set, names_text, plan_deduplication, plan_set, remove_conflicting, remove_redundant,
    str_starts_with, Matcher,
};
use backup_deduplicator::stages::dedup::output::DeduplicationAction;

fn location(parts: &[&str]) -> Vec<String> {
    parts.iter().map(|s| s.to_string()).collect()
}

fn path(parts: &[&str]) -> FilePath {
    FilePath { path: vec![location(parts)] }
}

fn hash() -> GeneralHash {
    GeneralHash { hash_type: GeneralHashType::SHA256, value: vec![1, 2, 3] }
}

fn conflicting(parts: &[&str], modified: u64) -> ConflictingEntry {
    ConflictingEntry { path: path(parts), modified }
}

fn set(ftype: HashTreeFileEntryType, files: Vec<ConflictingEntry>) -> DupSetEntry {
    DupSetEntry { ftype, size: 42, hash: hash(), conflicting: files }
}

fn matchers(model: MatchingModel, dirs: &[&str]) -> Vec<Matcher> {
    directory_matchers(model, &dirs.iter().map(|s| s.to_string()).collect()).unwrap()
}

#[test]
fn names_text_joins_names() {
    assert_eq!(names_text(&location(&["/", "a", "b"])), "/a/b");
    assert_eq!(names_text(&location(&["a", "b"])), "a/b");
    assert_eq!(names_text(&location(&["/"])), "/");
    assert_eq!(names_text(&Vec::new()), "");
}

#[test]
fn plain_matchers_match_prefixes() {
    assert!(str_starts_with("/backup/a", "/backup"));
    assert!(!str_starts_with("/back", "/backup"));
    let ms = matchers(MatchingModel::Plain, &["/old", "/new", "/n"]);
    assert_eq!(last_directory_match(&ms, "/new/a"), Some(2));
    assert_eq!(last_directory_match(&ms, "/old/a"), Some(0));
    assert_eq!(last_directory_match(&ms, "/other/a"), None);
    assert!(Matcher::all_ref().matches("anything"));
}

#[test]
fn regex_matchers_compile_or_fail() {
    let ms = matchers(MatchingModel::Regex, &["^/ol.", "w/a$"]);
    assert_eq!(last_directory_match(&ms, "/old/x"), Some(0));
    assert_eq!(last_directory_match(&ms, "/new/a"), Some(1));
    assert!(ms[0].matches("/olx/y"));
    assert!(!ms[0].matches("x/old"));
    assert!(ms[1].matches("/new/a"));
    assert!(!ms[1].matches("/new/ab"));
    match directory_matchers(MatchingModel::Regex, &vec!["ok".to_string(), "(".to_string()]) {
        Err(err) => assert_eq!(err.directory, "("),
        Ok(_) => panic!("an unbalanced parenthesis is no regular expression"),
    }
}

#[test]
fn match_set_records_last_directory_and_references() {
    let entry = set(
        HashTreeFileEntryType::File,
        vec![conflicting(&["/", "old", "a"], 1), conflicting(&["/", "ref", "a"], 2), FilePathless::entry()],
    );
    let (idx, refs) = match_set(&entry, &matchers(MatchingModel::Plain, &["/old"]), &matchers(MatchingModel::Plain, &["/ref"]));
    assert_eq!(idx, vec![Some(0), None, None]);
    assert_eq!(refs, vec![false, true, false]);
}

struct FilePathless;

impl FilePathless {
    fn entry() -> ConflictingEntry {
        ConflictingEntry { path: FilePath { path: Vec::new() }, modified: 0 }
    }
}

fn removed_path(a: &DeduplicationAction) -> Vec<String> {
    a.path().path[0].clone()
}

#[test]
fn incremental_keeps_the_newest_copy() {
    let entry = set(
        HashTreeFileEntryType::File,
        vec![conflicting(&["/", "old", "a"], 1), conflicting(&["/", "new", "a"], 2), conflicting(&["/", "other", "a"], 3)],
    );
    let actions = plan_set(&entry, &vec![Some(0), Some(1), None], &vec![false, false, false], 2);
    assert_eq!(actions.len(), 1);
    match &actions[0] {
        DeduplicationAction::RemoveFile { path: p, remaining_duplicates, hash: h, size, modification_time } => {
            assert_eq!(p, &path(&["/", "old", "a"]));
            assert_eq!(remaining_duplicates, &vec![path(&["/", "new", "a"]), path(&["/", "other", "a"])]);
            assert_eq!(h, &hash());
            assert_eq!(*size, 42);
            assert_eq!(*modification_time, 1);
        },
        other => panic!("unexpected action {other:?}"),
    }
}

#[test]
fn incremental_with_reference_removes_all_but_the_kept_copy() {
    let entry = set(
        HashTreeFileEntryType::Directory,
        vec![conflicting(&["/", "old", "a"], 1), conflicting(&["/", "new", "a"], 2), conflicting(&["/", "ref", "a"], 3)],
    );
    let actions = plan_set(&entry, &vec![Some(0), Some(1), None], &vec![false, false, true], 2);
    assert_eq!(actions.len(), 1);
    match &actions[0] {
        DeduplicationAction::RemoveDirectory { path: p, remaining_duplicates, children, .. } => {
            assert_eq!(p, &path(&["/", "old", "a"]));
            assert_eq!(remaining_duplicates, &vec![path(&["/", "ref", "a"])]);
            assert_eq!(*children, 42);
        },
        other => panic!("unexpected action {other:?}"),
    }
}

#[test]
fn incremental_orders_by_directory_then_position() {
    let entry = set(
        HashTreeFileEntryType::File,
        vec![conflicting(&["/", "b", "1"], 1), conflicting(&["/", "a", "1"], 2), conflicting(&["/", "b", "2"], 3)],
    );
    let actions = plan_set(&entry, &vec![Some(1), Some(0), Some(1)], &vec![false, false, false], 2);
    let removed: Vec<Vec<String>> = actions.iter().map(removed_path).collect();
    assert_eq!(removed, vec![location(&["/", "a", "1"]), location(&["/", "b", "1"])]);
    for a in &actions {
        assert_eq!(a.remaining_duplicates(), &vec![path(&["/", "b", "2"])]);
    }
}

#[test]
fn nothing_planned_without_match_or_for_other_files() {
    let entry = set(HashTreeFileEntryType::File, vec![conflicting(&["/", "x"], 1), conflicting(&["/", "y"], 2)]);
    assert!(plan_set(&entry, &vec![None, None], &vec![false, false], 1).is_empty());
    let other = set(HashTreeFileEntryType::Other, vec![conflicting(&["/", "x"], 1), conflicting(&["/", "y"], 2)]);
    assert!(plan_set(&other, &vec![Some(0), None], &vec![false, false], 1).is_empty());
}

#[test]
fn nothing_planned_when_no_copy_would_remain() {
    let entry = set(HashTreeFileEntryType::File, vec![conflicting(&["/", "x"], 1), conflicting(&["/", "y"], 2)]);
    assert!(plan_set(&entry, &vec![Some(0), Some(0)], &vec![true, false], 1).is_empty());
}

#[test]
fn redundant_actions_inside_removed_directories_are_dropped() {
    let dir = DeduplicationAction::RemoveDirectory {
        path: path(&["/", "x"]),
        remaining_duplicates: vec![path(&["/", "y"])],
        hash: hash(),
        children: 1,
        modification_time: 0,
    };
    let inner = DeduplicationAction::RemoveFile {
        path: path(&["/", "x", "f"]),
        remaining_duplicates: vec![path(&["/", "y", "f"])],
        hash: hash(),
        size: 3,
        modification_time: 0,
    };
    let outside = DeduplicationAction::RemoveFile {
        path: path(&["/", "z", "f"]),
        remaining_duplicates: vec![path(&["/", "y", "f"])],
        hash: hash(),
        size: 3,
        modification_time: 0,
    };
    let pathless = DeduplicationAction::RemoveFile {
        path: FilePath { path: Vec::new() },
        remaining_duplicates: vec![path(&["/", "y", "f"])],
        hash: hash(),
        size: 3,
        modification_time: 0,
    };
    let kept = remove_redundant(&vec![inner, dir.clone(), outside.clone(), pathless]);
    assert_eq!(kept, vec![dir, outside]);
}

#[test]
fn plan_deduplication_matches_then_plans() {
    let file = DupSetFile {
        version: DupSetFileVersion::V1,
        entries: vec![
            set(HashTreeFileEntryType::File, vec![conflicting(&["/", "old", "a"], 1), conflicting(&["/", "new", "a"], 2)]),
            set(HashTreeFileEntryType::File, vec![conflicting(&["/", "old", "b"], 1), conflicting(&["/", "keep", "b"], 2)]),
        ],
    };
    let actions = plan_deduplication(&file, &matchers(MatchingModel::Plain, &["/old", "/new"]), &Vec::new());
    let removed: Vec<Vec<String>> = actions.iter().map(removed_path).collect();
    assert_eq!(removed, vec![location(&["/", "old", "a"])]);
    assert!(actions.iter().all(|a| !a.remaining_duplicates().is_empty()));
    assert!(actions.iter().all(|a| !a.remaining_duplicates().contains(a.path())));
}

#[test]
fn remove_conflicting_spares_remaining_duplicates() {
    let dir = DeduplicationAction::RemoveDirectory {
        path: path(&["/", "y"]),
        remaining_duplicates: vec![path(&["/", "z"])],
        hash: hash(),
        children: 1,
        modification_time: 0,
    };
    let keeps_inside_dir = DeduplicationAction::RemoveFile {
        path: path(&["/", "w", "f"]),
        remaining_duplicates: vec![path(&["/", "y", "f"])],
        hash: hash(),
        size: 3,
        modification_time: 0,
    };
    let removes_remaining = DeduplicationAction::RemoveFile {
        path: path(&["/", "z"]),
        remaining_duplicates: vec![path(&["/", "q"])],
        hash: hash(),
        size: 3,
        modification_time: 0,
    };
    let fine = DeduplicationAction::RemoveFile {
        path: path(&["/", "v", "f"]),
        remaining_duplicates: vec![path(&["/", "q", "f"])],
        hash: hash(),
        size: 3,
        modification_time: 0,
    };
    let kept = remove_conflicting(&vec![dir, keeps_inside_dir.clone(), removes_remaining, fine.clone()]);
    assert_eq!(kept, vec![keeps_inside_dir, fine]);
}
