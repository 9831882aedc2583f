use backup_deduplicator::hash::{GeneralHash, GeneralHashType};
use backup_deduplicator::order::sort_by_key;
use backup_deduplicator::path::{names_before, FilePath};
use backup_deduplicator::stages::build::output::entry_index::EntryIndex;
use backup_deduplicator::stages::build::intermediary_build_data::{BuildFile, BuildFileInformation};
use backup_deduplicator::stages::build::output::{HashTreeFileEntry, HashTreeFileEntryType};

fn names(parts: &[&str]) -> Vec<String> {
    parts.iter().map(|s| s.to_string()).collect()
}

fn hash(t: GeneralHashType, value: &[u8]) -> GeneralHash {
    GeneralHash { hash_type: t, value: value.to_vec() }
}

fn entry(parts: &[&str], h: u8, modified: u64) -> HashTreeFileEntry {
    HashTreeFileEntry {
        file_type: HashTreeFileEntryType::File,
        modified,
        size: 1,
        hash: hash(GeneralHashType::SHA256, &[h]),
        path: FilePath { path: vec![names(parts)] },
        children: Vec::new(),
        archive_children: Vec::new(),
        archive_inner_hash: None,
    }
}

#[test]
fn hashes_order_by_algorithm_then_bytes() {
    let a = hash(GeneralHashType::SHA512, &[9]);
    let b = hash(GeneralHashType::SHA256, &[1]);
    let c = hash(GeneralHashType::SHA256, &[1, 0]);
    let d = hash(GeneralHashType::SHA256, &[2]);
    assert!(a.less_than(&b));
    assert!(b.less_than(&c));
    assert!(c.less_than(&d));
    assert!(!d.less_than(&c));
    assert!(!b.less_than(&b));
    assert!(b.same_as(&b.duplicate()));
    assert_eq!(GeneralHash::null().hash_type(), GeneralHashType::NULL);
    assert!(GeneralHash::null().value.is_empty());
}

#[test]
fn sorting_hashes_does_not_depend_on_their_order() {
    let hs = [
        hash(GeneralHashType::SHA1, &[3]),
        hash(GeneralHashType::SHA1, &[1]),
        hash(GeneralHashType::XXH64, &[0]),
        hash(GeneralHashType::SHA1, &[1]),
    ];
    let mut first = vec![hs[0].clone(), hs[1].clone(), hs[2].clone(), hs[3].clone()];
    let mut second = vec![hs[2].clone(), hs[3].clone(), hs[0].clone(), hs[1].clone()];
    sort_by_key(&mut first);
    sort_by_key(&mut second);
    assert_eq!(first, second);
    assert_eq!(first, vec![hs[1].clone(), hs[1].clone(), hs[0].clone(), hs[2].clone()]);
}

#[test]
fn names_order_lexicographically() {
    assert!(names_before(&names(&["/", "a"]), &names(&["/", "b"])));
    assert!(names_before(&names(&["/", "a"]), &names(&["/", "a", "b"])));
    assert!(!names_before(&names(&["/", "a", "b"]), &names(&["/", "a"])));
    assert!(names_before(&names(&["/", "B"]), &names(&["/", "a"])));
    assert!(!names_before(&names(&["/", "a"]), &names(&["/", "a"])));
}

#[test]
fn paths_join_and_have_parents() {
    let p = FilePath { path: vec![names(&["/", "x"])] };
    let child = p.join(&"y".to_string());
    assert_eq!(child.path, vec![names(&["/", "x", "y"])]);
    assert!(child.parent().unwrap().same_as(&p));
    let archive = child.new_archive();
    assert_eq!(archive.path, vec![names(&["/", "x", "y"]), Vec::<String>::new()]);
    let inside = archive.join_all(&names(&["dir", "file"]));
    assert_eq!(inside.path[1], names(&["dir", "file"]));
    assert_eq!(inside.relative_to_last(&archive), Some(names(&["dir", "file"])));
    assert_eq!(inside.parent().unwrap().path, vec![names(&["/", "x", "y"]), names(&["dir"])]);
    let top = FilePath { path: vec![names(&["/", "x", "y"]), names(&["dir"])] };
    assert_eq!(top.parent().unwrap().path, vec![names(&["/", "x", "y"])]);
    assert!(FilePath { path: vec![Vec::new()] }.parent().is_none());
    assert_eq!(inside.first_component(), Some(&names(&["/", "x", "y"])));
    assert_eq!(inside.last_component(), Some(&names(&["dir", "file"])));
}

#[test]
fn index_reads_back_what_was_inserted() {
    let mut index: EntryIndex<HashTreeFileEntry> = EntryIndex::new(true, true, true);
    index.insert(entry(&["/", "a"], 1, 1));
    index.insert(entry(&["/", "b"], 1, 2));
    index.insert(entry(&["/", "c"], 2, 3));
    index.insert(entry(&["/", "a"], 2, 4));
    let group = index.with_hash(&hash(GeneralHashType::SHA256, &[1])).unwrap();
    assert_eq!(group.len(), 2);
    let group = index.with_hash(&hash(GeneralHashType::SHA256, &[2])).unwrap();
    assert_eq!(group.iter().map(|e| e.modified).collect::<Vec<_>>(), vec![3, 4]);
    assert!(index.with_hash(&hash(GeneralHashType::SHA256, &[3])).is_none());
    let all: Vec<u64> = index.all_entries.iter().map(|e| e.modified).collect();
    assert_eq!(all, vec![2, 3, 4]);
    let by_path = index.take_file_by_path();
    assert_eq!(by_path.len(), 3);
    let a = by_path.iter().find(|e| e.path.path[0] == names(&["/", "a"])).unwrap();
    assert_eq!(a.modified, 4);
    assert!(index.take_file_by_path().is_empty());
}

#[test]
fn sorting_keeps_equal_keys_in_their_order() {
    let file = |h: u8, name: &str| {
        BuildFile::File(BuildFileInformation {
            path: FilePath { path: vec![names(&["/", name])] },
            modified: 0,
            content_hash: hash(GeneralHashType::SHA256, &[h]),
            content_size: 1,
        })
    };
    let mut files = vec![file(2, "a"), file(1, "b"), file(2, "c"), file(1, "d")];
    sort_by_key(&mut files);
    let order: Vec<String> = files.iter().map(|f| f.get_path().path[0][1].clone()).collect();
    assert_eq!(order, names(&["b", "d", "a", "c"]));
}
