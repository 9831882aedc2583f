use backup_deduplicator::hash::{GeneralHash, GeneralHashType};
use backup_deduplicator::path::FilePath;
use backup_deduplicator::stages::build::cmd::job::{BuildJob, BuildJobState, JobCounter, JobResult};
use backup_deduplicator::stages::build::cmd::worker::directory::{worker_run_directory, DirectoryOutcome};
use backup_deduplicator::stages::build::cmd::worker::file::{worker_run_file, FileReading, WorkerRunFileArguments};
use backup_deduplicator::stages::build::cmd::worker::other::{worker_run_other, WorkerRunOtherArguments};
use backup_deduplicator::stages::build::cmd::worker::symlink::worker_run_symlink;
use backup_deduplicator::stages::build::intermediary_build_data::{BuildFile, BuildFileInformation};
use backup_deduplicator::stages::build::output::{HashTreeFileEntry, HashTreeFileEntryType};
use std::sync::Arc;

fn names(parts: &[&str]) -> Vec<String> {
    parts.iter().map(|s| s.to_string()).collect()
}

fn path(parts: &[&str]) -> FilePath {
    FilePath { path: vec![names(parts)] }
}

fn hash(byte: u8) -> GeneralHash {
    GeneralHash { hash_type: GeneralHashType::SHA256, value: vec![byte] }
}

fn job(parts: &[&str], parent: Option<Arc<BuildJob>>, counter: &mut JobCounter) -> BuildJob {
    BuildJob::new(parent, path(parts), counter)
}

fn saved(file_type: HashTreeFileEntryType, modified: u64, size: u64, h: u8) -> HashTreeFileEntry {
    HashTreeFileEntry {
        file_type,
        modified,
        size,
        hash: hash(h),
        path: path(&["/", "f"]),
        children: Vec::new(),
        archive_children: Vec::new(),
        archive_inner_hash: None,
    }
}

fn content(r: JobResult) -> (bool, bool, BuildFile) {
    match r {
        JobResult::Final(c) => (false, c.already_cached, c.content),
        JobResult::Intermediate(c) => (true, c.already_cached, c.content),
    }
}

#[test]
fn job_counter_hands_out_new_ids() {
    let mut counter = JobCounter::new();
    let a = job(&["/", "a"], None, &mut counter);
    assert_eq!(a.job_id(), 1);
    let a = a.new_job_id(&mut counter);
    assert_eq!(a.job_id(), 2);
    assert_eq!(a.state, BuildJobState::NotProcessed);
    assert_eq!(counter.new_job_counter_id(), 3);
}

#[test]
fn other_files_are_cached_when_unchanged() {
    let mut counter = JobCounter::new();
    let args = WorkerRunOtherArguments {
        path: names(&["/", "f"]),
        modified: 4,
        size: 0,
        id: 0,
        job: job(&["/", "f"], None, &mut counter),
        saved: Some(saved(HashTreeFileEntryType::Other, 4, 0, 1)),
    };
    let (has_parent, cached, file) = content(worker_run_other(args));
    assert!(!has_parent);
    assert!(cached);
    assert!(file.is_other());
    let args = WorkerRunOtherArguments {
        path: names(&["/", "f"]),
        modified: 5,
        size: 0,
        id: 0,
        job: job(&["/", "f"], None, &mut counter),
        saved: Some(saved(HashTreeFileEntryType::Other, 4, 0, 1)),
    };
    assert!(!content(worker_run_other(args)).1);
}

#[test]
fn files_take_the_saved_hash_or_the_one_read() {
    let mut counter = JobCounter::new();
    let parent = Arc::new(job(&["/"], None, &mut counter));
    let args = WorkerRunFileArguments {
        path: names(&["/", "f"]),
        modified: 4,
        size: 10,
        id: 0,
        job: job(&["/", "f"], Some(parent.clone()), &mut counter),
        saved: Some(saved(HashTreeFileEntryType::File, 4, 10, 7)),
        reading: Err("not read".to_string()),
    };
    let (has_parent, cached, file) = content(worker_run_file(args));
    assert!(has_parent);
    assert!(cached);
    assert_eq!(file.get_content_hash(), hash(7));
    let args = WorkerRunFileArguments {
        path: names(&["/", "f"]),
        modified: 5,
        size: 10,
        id: 0,
        job: job(&["/", "f"], None, &mut counter),
        saved: Some(saved(HashTreeFileEntryType::File, 4, 10, 7)),
        reading: Ok(FileReading { hash: hash(8), content_size: 10, archive: None }),
    };
    let (_, cached, file) = content(worker_run_file(args));
    assert!(!cached);
    assert!(file.is_file());
    assert_eq!(file.get_content_hash(), hash(8));
    let args = WorkerRunFileArguments {
        path: names(&["/", "f"]),
        modified: 5,
        size: 10,
        id: 0,
        job: job(&["/", "f"], None, &mut counter),
        saved: None,
        reading: Err("unreadable".to_string()),
    };
    assert!(content(worker_run_file(args)).2.is_other());
}

#[test]
fn archives_list_their_files_by_hash() {
    let mut counter = JobCounter::new();
    let inner = |h: u8, name: &str| {
        BuildFile::File(BuildFileInformation {
            path: FilePath { path: vec![names(&["/", "a.tar"]), names(&[name])] },
            modified: 0,
            content_hash: hash(h),
            content_size: 1,
        })
    };
    let args = WorkerRunFileArguments {
        path: names(&["/", "a.tar"]),
        modified: 5,
        size: 10,
        id: 0,
        job: job(&["/", "a.tar"], None, &mut counter),
        saved: None,
        reading: Ok(FileReading { hash: hash(1), content_size: 10, archive: Some(Ok(vec![inner(9, "x"), inner(3, "y")])) }),
    };
    let (_, _, file) = content(worker_run_file(args));
    assert!(file.is_archive());
    match file {
        BuildFile::ArchiveFile(info) => {
            let hashes: Vec<GeneralHash> = info.children.iter().map(|c| c.get_content_hash()).collect();
            assert_eq!(hashes, vec![hash(3), hash(9)]);
        }
        other => panic!("unexpected {other:?}"),
    }
}

#[test]
fn symlinks_hash_their_target() {
    let mut counter = JobCounter::new();
    let hasher = |t: GeneralHashType, p: &Vec<String>| Some(GeneralHash { hash_type: t, value: vec![p.len() as u8] });
    let r = worker_run_symlink(
        names(&["/", "l"]),
        1,
        0,
        0,
        job(&["/", "l"], None, &mut counter),
        None,
        Ok(names(&["/", "t", "u"])),
        GeneralHashType::SHA1,
        &hasher,
    );
    let (_, cached, file) = content(r);
    assert!(!cached);
    assert!(file.is_symlink());
    assert_eq!(file.get_content_hash().value, vec![3]);
    let r = worker_run_symlink(
        names(&["/", "l"]),
        1,
        0,
        0,
        job(&["/", "l"], None, &mut counter),
        None,
        Err("dangling".to_string()),
        GeneralHashType::SHA1,
        &hasher,
    );
    assert!(content(r).2.is_other());
}

#[test]
fn directories_expand_into_sorted_child_jobs() {
    let mut counter = JobCounter::new();
    let dir = job(&["/", "d"], None, &mut counter);
    let hasher = |t: GeneralHashType, hs: &Vec<GeneralHash>| Some(GeneralHash { hash_type: t, value: vec![hs.len() as u8] });
    let outcome = worker_run_directory(
        names(&["/", "d"]),
        1,
        2,
        0,
        dir,
        None,
        Ok(names(&["b", "a"])),
        GeneralHashType::SHA1,
        &hasher,
        &mut counter,
    );
    match outcome {
        DirectoryOutcome::Expanded(jobs) => {
            let paths: Vec<FilePath> = jobs.iter().map(|j| j.target_path.clone()).collect();
            assert_eq!(paths, vec![path(&["/", "d", "a"]), path(&["/", "d", "b"])]);
            assert_eq!(jobs.iter().map(|j| j.id).collect::<Vec<_>>(), vec![2, 3]);
            assert!(jobs.iter().all(|j| j.parent.as_ref().unwrap().state == BuildJobState::Analyzed));
        }
        DirectoryOutcome::Finished(_) => panic!("the directory must be expanded"),
    }
}

#[test]
fn reported_files_become_entries() {
    let file = BuildFile::File(BuildFileInformation { path: path(&["/", "f"]), modified: 3, content_hash: hash(4), content_size: 5 });
    let entry = HashTreeFileEntry::from(file);
    assert_eq!(entry.file_type, HashTreeFileEntryType::File);
    assert_eq!((entry.modified, entry.size), (3, 5));
    assert_eq!(entry.hash, hash(4));
    assert!(entry.children.is_empty());
}
