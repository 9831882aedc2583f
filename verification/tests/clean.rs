use backup_deduplicator::hash::{GeneralHash, GeneralHashType};
use backup_deduplicator::path::FilePath;
use backup_deduplicator::stages::build::output::{HashTreeFile, HashTreeFileEntry, HashTreeFileEntryType};
use backup_deduplicator::stages::clean::cmd::{load_present_entries, still_present, FileKind, Presence};

fn entry(name: &str, file_type: HashTreeFileEntryType, hash_type: GeneralHashType) -> HashTreeFileEntry {
    HashTreeFileEntry {
        file_type,
        modified: 1,
        size: 2,
        hash: GeneralHash { hash_type, value: vec![7] },
        path: FilePath { path: vec![vec!["/".to_string(), name.to_string()]] },
        children: Vec::new(),
        archive_children: Vec::new(),
        archive_inner_hash: None,
    }
}

#[test]
fn presence_decides_what_stays() {
    let file = HashTreeFileEntryType::File;
    assert!(still_present(file, Presence::Unresolved));
    assert!(!still_present(file, Presence::Missing));
    assert!(still_present(file, Presence::Unreadable));
    assert!(still_present(file, Presence::Found(FileKind::File)));
    assert!(!still_present(file, Presence::Found(FileKind::Directory)));
    assert!(still_present(HashTreeFileEntryType::Symlink, Presence::Found(FileKind::Symlink)));
    assert!(still_present(HashTreeFileEntryType::Other, Presence::Found(FileKind::Other)));
}

#[test]
fn only_present_and_accepted_entries_are_loaded() {
    let mut file = HashTreeFile::new(GeneralHashType::SHA256, false, true, true);
    let entries = vec![
        entry("a", HashTreeFileEntryType::File, GeneralHashType::SHA256),
        entry("b", HashTreeFileEntryType::File, GeneralHashType::SHA256),
        entry("c", HashTreeFileEntryType::File, GeneralHashType::SHA1),
        entry("d", HashTreeFileEntryType::Directory, GeneralHashType::SHA256),
    ];
    let presence = vec![
        Presence::Found(FileKind::File),
        Presence::Missing,
        Presence::Found(FileKind::File),
        Presence::Found(FileKind::Directory),
    ];
    load_present_entries(&mut file, entries, &presence);
    let kept: Vec<String> = file.index.all_entries.iter().map(|e| e.path.path[0][1].clone()).collect();
    assert_eq!(kept, vec!["a".to_string(), "d".to_string()]);
}
