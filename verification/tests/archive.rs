use backup_deduplicator::hash::{GeneralHash, GeneralHashType};
use backup_deduplicator::path::FilePath;
use backup_deduplicator::stages::build::cmd::archive::{
    archive_entry, archive_entry_path, build_tree_from_list, worker_run_archive, ArchiveFile, EntryContent,
    WorkerRunArchiveArguments,
};
use backup_deduplicator::stages::build::cmd::worker::WorkerArgument;
use backup_deduplicator::stages::build::output::HashTreeFileEntryType;

fn names(parts: &[&str]) -> Vec<String> {
    parts.iter().map(|s| s.to_string()).collect()
}

fn hash(byte: u8) -> GeneralHash {
    GeneralHash { hash_type: GeneralHashType::SHA1, value: vec![byte] }
}

fn root() -> FilePath {
    FilePath { path: vec![names(&["/", "a.tar"]), Vec::new()] }
}

fn inside(parts: &[&str]) -> FilePath {
    FilePath { path: vec![names(&["/", "a.tar"]), names(parts)] }
}

fn file(parts: &[&str], h: u8, size: u64) -> ArchiveFile {
    ArchiveFile::File { path: inside(parts), modified: 0, content_hash: hash(h), content_size: size }
}

fn sum_hasher(t: GeneralHashType, hashes: &Vec<GeneralHash>) -> GeneralHash {
    GeneralHash { hash_type: t, value: vec![hashes.iter().map(|h| h.value[0]).sum()] }
}

#[test]
fn entry_paths_join_names_or_get_a_random_name() {
    assert_eq!(archive_entry_path(&root(), Some(names(&["d", "f"]))), inside(&["d", "f"]));
    let unknown = archive_entry_path(&root(), None);
    let name = &unknown.path[1][0];
    assert_eq!(unknown.path.len(), 2);
    assert_eq!(name.len(), 22);
    assert!(name.starts_with("bdd_unknown_"));
}

#[test]
fn list_of_entries_becomes_a_tree() {
    let entries = vec![file(&["d"], 0, 0), file(&["d", "x"], 4, 1), file(&["d", "y"], 2, 1), file(&["top"], 9, 3)];
    let forest = build_tree_from_list(GeneralHashType::SHA1, entries, &root(), &sum_hasher);
    assert_eq!(forest.len(), 2);
    let dir = forest.iter().find(|t| t.is_directory()).unwrap();
    assert_eq!(dir.get_path(), &inside(&["d"]));
    assert_eq!(dir.get_inner_hash(), hash(6));
    let entries = dir.to_hash_file_entry();
    assert_eq!(entries.len(), 3);
    assert_eq!(entries[0].file_type, HashTreeFileEntryType::Directory);
    assert_eq!(entries[0].size, 2);
    assert_eq!(entries[1].hash, hash(2));
    assert_eq!(entries[2].hash, hash(4));
}

#[test]
fn entries_outside_the_archive_are_dropped() {
    let stranger = ArchiveFile::File {
        path: FilePath { path: vec![names(&["/", "elsewhere"])] },
        modified: 0,
        content_hash: hash(1),
        content_size: 1,
    };
    let forest = build_tree_from_list(GeneralHashType::SHA1, vec![stranger], &root(), &sum_hasher);
    assert!(forest.is_empty());
}

#[test]
fn archive_runs_arrange_entries_under_the_archive_root() {
    let arguments = WorkerRunArchiveArguments {
        id: 0,
        arg: WorkerArgument { follow_symlinks: false, archives: true, hash_type: GeneralHashType::SHA1 },
    };
    let archive_path = FilePath { path: vec![names(&["/", "a.tar"])] };
    let forest = worker_run_archive(vec![file(&["f"], 5, 1)], &archive_path, &arguments, &sum_hasher);
    assert_eq!(forest.len(), 1);
    assert!(forest[0].is_file());
    assert_eq!(forest[0].get_file_hash(), hash(5));
}

#[test]
fn nested_archives_keep_their_trees_sorted() {
    let content = EntryContent {
        content_hash: hash(1),
        content_size: 10,
        modified: 3,
        nested: Some(Ok(vec![file(&["b"], 7, 1), file(&["a"], 2, 1)])),
    };
    let nested = archive_entry(inside(&["inner.zip"]), content, GeneralHashType::SHA1, &sum_hasher);
    assert!(nested.is_archive());
    assert_eq!(nested.get_inner_hash(), hash(9));
    let plain = EntryContent { content_hash: hash(1), content_size: 10, modified: 3, nested: Some(Err("bad".to_string())) };
    let plain = archive_entry(inside(&["broken.zip"]), plain, GeneralHashType::SHA1, &sum_hasher);
    assert!(plain.is_file());
    assert_eq!(plain.modified(), 3);
}

#[test]
fn missing_directories_are_made_on_the_way() {
    let deep = ArchiveFile::File { path: inside(&["p", "q", "f"]), modified: 7, content_hash: hash(3), content_size: 2 };
    let forest = build_tree_from_list(GeneralHashType::SHA1, vec![deep], &root(), &sum_hasher);
    assert_eq!(forest.len(), 1);
    match &forest[0] {
        ArchiveFile::Directory { path, modified, children, number_of_children, .. } => {
            assert_eq!(path, &inside(&["p"]));
            assert_eq!(*modified, 7);
            assert_eq!(*number_of_children, 1);
            match &children[0] {
                ArchiveFile::Directory { path, children, .. } => {
                    assert_eq!(path, &inside(&["p", "q"]));
                    assert_eq!(children[0].get_path(), &inside(&["p", "q", "f"]));
                }
                other => panic!("expected a directory, got {other:?}"),
            }
        }
        other => panic!("expected a directory, got {other:?}"),
    }
}

#[test]
fn entries_of_one_directory_share_it() {
    let entries = vec![file(&["d", "a"], 1, 1), file(&["d", "b"], 2, 1)];
    let forest = build_tree_from_list(GeneralHashType::SHA1, entries, &root(), &sum_hasher);
    assert_eq!(forest.len(), 1);
    match &forest[0] {
        ArchiveFile::Directory { path, children, number_of_children, .. } => {
            assert_eq!(path, &inside(&["d"]));
            assert_eq!(*number_of_children, 2);
            assert_eq!(children.len(), 2);
        }
        other => panic!("expected a directory, got {other:?}"),
    }
}
