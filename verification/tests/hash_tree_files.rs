use backup_deduplicator::hash::{GeneralHash, GeneralHashType};
use backup_deduplicator::path::FilePath;
use backup_deduplicator::stages::build::output::hashtree_file::{SaveFile, SaveFileEntry, SaveFileEntryType, SaveFileHeaders, SaveFileVersion};
use backup_deduplicator::stages::build::output::{HashTreeFile, HashTreeFileEntry, HashTreeFileEntryType};

fn path(name: &str) -> FilePath {
    FilePath { path: vec![vec!["/".to_string(), name.to_string()]] }
}

fn entry(name: &str, file_type: HashTreeFileEntryType, hash_type: GeneralHashType) -> HashTreeFileEntry {
    HashTreeFileEntry {
        file_type,
        modified: 0,
        size: 1,
        hash: GeneralHash { hash_type, value: if hash_type == GeneralHashType::NULL { vec![] } else { vec![1] } },
        path: path(name),
        children: Vec::new(),
        archive_children: Vec::new(),
        archive_inner_hash: None,
    }
}

fn loaded_names(file: &HashTreeFile) -> Vec<String> {
    file.index.all_entries.iter().map(|e| e.path.path[0][1].clone()).collect()
}

#[test]
fn entries_of_another_hash_type_are_not_accepted() {
    let file = HashTreeFile::new(GeneralHashType::SHA256, true, true, true);
    assert!(file.accepts(&entry("a", HashTreeFileEntryType::File, GeneralHashType::SHA256)));
    assert!(!file.accepts(&entry("b", HashTreeFileEntryType::File, GeneralHashType::SHA1)));
    assert!(file.accepts(&entry("c", HashTreeFileEntryType::Other, GeneralHashType::NULL)));
    assert!(!file.accepts(&entry("d", HashTreeFileEntryType::File, GeneralHashType::NULL)));
}

#[test]
fn loading_with_a_filter_keeps_accepted_entries_the_filter_keeps() {
    let mut file = HashTreeFile::new(GeneralHashType::SHA256, true, true, true);
    let entries = vec![
        entry("keep", HashTreeFileEntryType::File, GeneralHashType::SHA256),
        entry("drop", HashTreeFileEntryType::File, GeneralHashType::SHA256),
        entry("foreign", HashTreeFileEntryType::File, GeneralHashType::SHA1),
        entry("also", HashTreeFileEntryType::Directory, GeneralHashType::SHA256),
    ];
    file.load_all_entries(entries, &|e: &HashTreeFileEntry| e.path.path[0][1] != "drop");
    assert_eq!(loaded_names(&file), vec!["keep".to_string(), "also".to_string()]);
    assert_eq!(file.get_written_bytes(), 0);
    file.add_written_bytes(10);
    assert_eq!(file.get_written_bytes(), 10);
}

#[test]
fn reloading_a_path_replaces_its_entry() {
    let mut file = HashTreeFile::new(GeneralHashType::SHA256, true, true, true);
    let mut newer = entry("a", HashTreeFileEntryType::File, GeneralHashType::SHA256);
    newer.modified = 9;
    assert!(file.load_entry_no_filter(entry("a", HashTreeFileEntryType::File, GeneralHashType::SHA256)));
    assert!(file.load_entry_no_filter(newer));
    assert_eq!(file.index.all_entries.len(), 1);
    assert_eq!(file.index.all_entries[0].modified, 9);
    file.empty_entry_list();
    assert!(file.index.all_entries.is_empty());
    file.empty_file_by_hash();
    assert!(file.index.file_by_hash.is_empty());
}

#[test]
fn save_files_load_like_hash_tree_files() {
    let mut file = SaveFile::new(true, true, true);
    file.load_header(SaveFileHeaders { version: SaveFileVersion::V1, hash_type: GeneralHashType::XXH64, creation_date: 1 });
    let e = SaveFileEntry {
        file_type: SaveFileEntryType::File,
        modified: 0,
        size: 1,
        hash: GeneralHash { hash_type: GeneralHashType::XXH64, value: vec![3] },
        path: path("x"),
        children: Vec::new(),
    };
    let mut wrong = e.clone();
    wrong.hash.hash_type = GeneralHashType::SHA1;
    file.load_all_entries_no_filter(vec![e, wrong]);
    assert_eq!(file.index.all_entries.len(), 1);
    assert_eq!(file.index.all_entries[0].hash.hash_type, GeneralHashType::XXH64);
}

#[test]
fn files_created_at_a_given_time() {
    let file = HashTreeFile::created_at(GeneralHashType::SHA256, true, true, true, 42);
    assert_eq!(file.header.creation_date, 42);
    assert_eq!(file.get_written_bytes(), 0);
    let save = SaveFile::created_at(true, true, true, 7);
    assert_eq!(save.header.creation_date, 7);
}
