use backup_deduplicator::hash::{GeneralHash, GeneralHashType};
use backup_deduplicator::path::FilePath;
use backup_deduplicator::stages::analyze::cmd::{analysis_report, conflicting_entries, write_result_entry};
use backup_deduplicator::stages::analyze::intermediary_analysis_data::{AnalysisFile, AnalysisFileInformation};
use backup_deduplicator::stages::analyze::worker::{worker_run, AnalysisJob, AnalysisJobCounter, AnalysisWorkerArgument};
use backup_deduplicator::stages::build::output::{
    HashTreeFile, HashTreeFileEntry, HashTreeFileEntryType, HashTreeFileHeader, HashTreeFileVersion,
};

fn path(parts: &[&str]) -> FilePath {
    FilePath { path: vec![parts.iter().map(|s| s.to_string()).collect()] }
}

fn hash(byte: u8) -> GeneralHash {
    GeneralHash { hash_type: GeneralHashType::SHA256, value: vec![byte; 4] }
}

fn entry(parts: &[&str], file_type: HashTreeFileEntryType, h: u8, size: u64, children: Vec<GeneralHash>) -> HashTreeFileEntry {
    HashTreeFileEntry {
        file_type,
        modified: 7,
        size,
        hash: hash(h),
        path: path(parts),
        children,
        archive_children: Vec::new(),
        archive_inner_hash: None,
    }
}

fn loaded(entries: Vec<HashTreeFileEntry>) -> HashTreeFile {
    let mut file = HashTreeFile::new(GeneralHashType::NULL, true, true, true);
    file.load_header(HashTreeFileHeader { version: HashTreeFileVersion::V1, hash_type: GeneralHashType::SHA256, creation_date: 0 });
    file.load_all_entries_no_filter(entries);
    file
}

#[test]
fn duplicated_directories_are_reported_once_without_their_contents() {
    let mut file = loaded(vec![
        entry(&["/", "a"], HashTreeFileEntryType::Directory, 2, 1, vec![hash(1)]),
        entry(&["/", "a", "f"], HashTreeFileEntryType::File, 1, 100, vec![]),
        entry(&["/", "b"], HashTreeFileEntryType::Directory, 2, 1, vec![hash(1)]),
        entry(&["/", "b", "f"], HashTreeFileEntryType::File, 1, 100, vec![]),
        entry(&["/", "c"], HashTreeFileEntryType::File, 3, 100, vec![]),
    ]);
    let conflicting = conflicting_entries(&file.index);
    assert_eq!(conflicting.len(), 4);
    let mut arg = AnalysisWorkerArgument::new(file.take_file_by_path());
    let mut counter = AnalysisJobCounter { last: 0 };
    for e in &conflicting {
        let job = AnalysisJob::new(e.duplicate(), &mut counter);
        worker_run(0, job, &mut arg);
    }
    assert_eq!(counter.last, 4);
    let (sets, bytes) = analysis_report(&arg, &file.index, &conflicting).unwrap();
    assert_eq!(sets.len(), 1);
    assert_eq!(sets[0].ftype, HashTreeFileEntryType::Directory);
    assert_eq!(sets[0].hash, hash(2));
    let paths: Vec<FilePath> = sets[0].conflicting.iter().map(|c| c.path.clone()).collect();
    assert_eq!(paths, vec![path(&["/", "a"]), path(&["/", "b"])]);
    assert_eq!(bytes, 1);
}

#[test]
fn files_of_equal_hash_but_other_size_are_no_duplicates() {
    let group = vec![
        entry(&["/", "x"], HashTreeFileEntryType::File, 5, 10, vec![]),
        entry(&["/", "y"], HashTreeFileEntryType::File, 5, 11, vec![]),
        entry(&["/", "z"], HashTreeFileEntryType::File, 5, 10, vec![]),
    ];
    let file = AnalysisFile::File(AnalysisFileInformation { path: path(&["/", "x"]), content_hash: hash(5), parent: None });
    let (sets, bytes) = write_result_entry(&file, &group);
    assert_eq!(sets.len(), 1);
    assert_eq!(sets[0].size, 10);
    assert_eq!(sets[0].conflicting.len(), 2);
    assert_eq!(bytes, 10);
    let other = AnalysisFile::File(AnalysisFileInformation { path: path(&["/", "y"]), content_hash: hash(5), parent: None });
    let (sets, bytes) = write_result_entry(&other, &group);
    assert!(sets.is_empty());
    assert_eq!(bytes, 0);
}

#[test]
fn analysis_jobs_count_up() {
    let mut counter = AnalysisJobCounter { last: 41 };
    let job = AnalysisJob::new(entry(&["/", "q"], HashTreeFileEntryType::File, 1, 1, vec![]), &mut counter);
    assert_eq!(job.job_id(), 42);
    assert_eq!(counter.last, 42);
}
