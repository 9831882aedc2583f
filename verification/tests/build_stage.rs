use backup_deduplicator::hash::{GeneralHash, GeneralHashType};
use backup_deduplicator::stages::build::cmd::planner::{FileCache, JobPlanner, PlannerStep, ScheduleJobsResult};
use backup_deduplicator::stages::build::cmd::worker::{
    directory_hash_result, evaluate_file, failure_at, file_hash_result, initial_result, listing_result, stub_result,
    symlink_result, unreadable_entry, FileContent, LengthCountingStream,
};
use backup_deduplicator::stages::build::cmd::{BuildJobData, BuildSettings, DirectoryEntry, FileType, JobIdCounter, JobResult, JobResultData};
use backup_deduplicator::stages::build::output::HashTreeFileEntryType;

fn names(parts: &[&str]) -> Vec<String> {
    parts.iter().map(|s| s.to_string()).collect()
}

fn hash(byte: u8) -> GeneralHash {
    GeneralHash { hash_type: GeneralHashType::SHA1, value: vec![byte] }
}

fn file_entry(parts: &[&str], size: u64) -> DirectoryEntry {
    DirectoryEntry { path: names(parts), modified: 5, file_type: FileType::File, file_size: size }
}

fn concat_hasher(t: GeneralHashType, hashes: &Vec<GeneralHash>) -> GeneralHash {
    GeneralHash { hash_type: t, value: hashes.iter().flat_map(|h| h.value.clone()).collect() }
}

#[test]
fn evaluate_file_takes_kind_from_metadata() {
    let e = evaluate_file(names(&["/", "d"]), Some(9), true, false, false, 4096);
    assert_eq!(e.file_type, FileType::Directory);
    assert_eq!(e.modified, 9);
    assert_eq!(e.file_size, 4096);
    let e = evaluate_file(names(&["/", "l"]), None, false, false, true, 0);
    assert_eq!(e.file_type, FileType::Symlink);
    assert_eq!(e.modified, 0);
    assert_eq!(evaluate_file(names(&["/", "p"]), None, false, false, false, 0).file_type, FileType::Other);
    let u = unreadable_entry(names(&["/", "u"]));
    assert_eq!((u.file_type, u.modified, u.file_size), (FileType::Other, 0, 0));
}

#[test]
fn listings_are_sorted_by_path() {
    let children = vec![file_entry(&["/", "d", "b"], 1), file_entry(&["/", "d", "a"], 2), file_entry(&["/", "d", "B"], 3)];
    match listing_result(file_entry(&["/", "d"], 0), Ok(children)) {
        JobResultData::DirectoryListing { children, .. } => {
            let paths: Vec<Vec<String>> = children.iter().map(|c| c.path.clone()).collect();
            assert_eq!(paths, vec![names(&["/", "d", "B"]), names(&["/", "d", "a"]), names(&["/", "d", "b"])]);
        }
        other => panic!("unexpected {other:?}"),
    }
    match listing_result(file_entry(&["/", "d"], 0), Err("denied".to_string())) {
        JobResultData::Error { path, occurred_at, reason } => {
            assert_eq!(path, names(&["/", "d"]));
            assert_eq!(occurred_at, names(&["/", "d"]));
            assert_eq!(reason, "denied");
        }
        other => panic!("unexpected {other:?}"),
    }
}

#[test]
fn file_hash_results_carry_hash_and_size() {
    let content = FileContent { hash: hash(7), size: 12, archive: None };
    match file_hash_result(file_entry(&["/", "f"], 12), Ok(content), GeneralHashType::SHA1, &concat_hasher) {
        JobResultData::FileHash { hash: h, size, .. } => {
            assert_eq!(h, hash(7));
            assert_eq!(size, 12);
        }
        other => panic!("unexpected {other:?}"),
    }
    match file_hash_result(file_entry(&["/", "f"], 12), Err("gone".to_string()), GeneralHashType::SHA1, &concat_hasher) {
        JobResultData::Error { reason, .. } => assert_eq!(reason, "gone"),
        other => panic!("unexpected {other:?}"),
    }
}

#[test]
fn directory_hash_does_not_depend_on_child_order() {
    let info = DirectoryEntry { path: names(&["/", "d"]), modified: 1, file_type: FileType::Directory, file_size: 3 };
    let first = directory_hash_result(info.duplicate(), vec![hash(3), hash(1), hash(2)], GeneralHashType::SHA1, &concat_hasher);
    let second = directory_hash_result(info, vec![hash(2), hash(3), hash(1)], GeneralHashType::SHA1, &concat_hasher);
    match (first, second) {
        (JobResultData::DirectoryHash { hash: a, children: ca, .. }, JobResultData::DirectoryHash { hash: b, .. }) => {
            assert_eq!(a, b);
            assert_eq!(a.value, vec![1, 2, 3]);
            assert_eq!(ca, vec![hash(3), hash(1), hash(2)]);
        }
        other => panic!("unexpected {other:?}"),
    }
}

#[test]
fn symlink_initial_and_stub_results() {
    let link = DirectoryEntry { path: names(&["/", "l"]), modified: 1, file_type: FileType::Symlink, file_size: 0 };
    let hasher = |t: GeneralHashType, p: &Vec<String>| GeneralHash { hash_type: t, value: vec![p.len() as u8] };
    match symlink_result(link, GeneralHashType::XXH32, &hasher) {
        JobResultData::SymlinkHash { hash: h, .. } => assert_eq!(h.value, vec![2]),
        other => panic!("unexpected {other:?}"),
    }
    match initial_result(names(&["/", "x"]), Err("missing".to_string())) {
        JobResultData::Error { path, reason, .. } => {
            assert_eq!(path, names(&["/", "x"]));
            assert_eq!(reason, "missing");
        }
        other => panic!("unexpected {other:?}"),
    }
    match stub_result(file_entry(&["/", "s"], 0)) {
        JobResultData::Error { reason, .. } => assert_eq!(reason, "Unexpected DirectoryStub job"),
        other => panic!("unexpected {other:?}"),
    }
    match failure_at(names(&["/", "y"]), "why".to_string()) {
        JobResultData::Error { path, occurred_at, .. } => assert_eq!(path, occurred_at),
        other => panic!("unexpected {other:?}"),
    }
}

#[test]
fn counting_stream_counts_reads() {
    let mut stream = LengthCountingStream::new(vec![1u8, 2, 3]);
    assert_eq!(stream.length(), 0);
    stream.record_read(2);
    stream.record_read(1);
    assert_eq!(stream.length(), 3);
    stream.inner_mut().push(4);
    assert_eq!(stream.inner(), vec![1, 2, 3, 4]);
}

#[test]
fn job_ids_count_up_and_wrap() {
    let mut counter = JobIdCounter::new();
    assert_eq!(counter.new_job_id(), 1);
    assert_eq!(counter.new_job_id(), 2);
    let mut last = JobIdCounter { last: u64::MAX };
    assert_eq!(last.new_job_id(), 0);
}

#[test]
fn unreadable_header_fails_only_a_continued_existing_file() {
    let settings = BuildSettings {
        directory: vec![names(&["/", "d"])],
        into_archives: false,
        follow_symlinks: false,
        output: names(&["/", "out"]),
        threads: None,
        hash_type: GeneralHashType::SHA256,
        continue_file: true,
    };
    assert!(settings.fails_on_unreadable_header(true));
    assert!(!settings.fails_on_unreadable_header(false));
}

fn run_planner_on_single_file() -> Vec<backup_deduplicator::stages::build::output::HashTreeFileEntry> {
    run_planner_with_cache(Vec::new()).0
}

fn cached_entry(modified: u64, h: u8) -> backup_deduplicator::stages::build::output::HashTreeFileEntry {
    backup_deduplicator::stages::build::output::HashTreeFileEntry {
        file_type: HashTreeFileEntryType::File,
        modified,
        size: 3,
        hash: hash(h),
        path: backup_deduplicator::path::FilePath { path: vec![names(&["/", "f"])] },
        children: Vec::new(),
        archive_children: Vec::new(),
        archive_inner_hash: None,
    }
}

fn run_planner_with_cache(
    cache: Vec<backup_deduplicator::stages::build::output::HashTreeFileEntry>,
) -> (Vec<backup_deduplicator::stages::build::output::HashTreeFileEntry>, usize) {
    let mut hashed = 0;
    let mut planner = JobPlanner::new(FileCache::new(cache));
    assert_eq!(planner.schedule_initial_job(names(&["/", "f"])), Some(1));
    let mut written = Vec::new();
    for _ in 0..10 {
        let (round, jobs) = planner.schedule_jobs();
        for job in jobs {
            planner.mark_published(job.job_id, job.node_id);
            let result = match &job.data {
                BuildJobData::Initial(path) => JobResultData::InitialEvaluation {
                    info: DirectoryEntry { path: path.clone(), modified: 5, file_type: FileType::File, file_size: 3 },
                },
                BuildJobData::HashFile(info) => {
                    hashed += 1;
                    JobResultData::FileHash { info: info.duplicate(), hash: hash(9), size: 3 }
                }
                other => panic!("unexpected job {other:?}"),
            };
            written.extend(planner.process_result(JobResult { job_id: job.job_id, node_id: job.node_id, result }));
        }
        match planner.next_step(round) {
            PlannerStep::Drain(result) => {
                assert!(result.is_ok());
                return (written, hashed);
            }
            PlannerStep::Fail(place, why) => panic!("failed at {place:?}: {why}"),
            PlannerStep::Schedule | PlannerStep::Receive => {}
        }
    }
    panic!("the build did not finish");
}

#[test]
fn planner_builds_a_single_file() {
    let written = run_planner_on_single_file();
    assert_eq!(written.len(), 1);
    assert_eq!(written[0].file_type, HashTreeFileEntryType::File);
    assert_eq!(written[0].hash, hash(9));
    assert_eq!(written[0].size, 3);
    assert_eq!(written[0].path.path, vec![names(&["/", "f"])]);
}

#[test]
fn results_of_unknown_jobs_are_ignored() {
    let mut planner = JobPlanner::new(FileCache::new(Vec::new()));
    planner.schedule_initial_job(names(&["/", "f"]));
    let stray = JobResult {
        job_id: 77,
        node_id: 1,
        result: JobResultData::FileHash { info: file_entry(&["/", "f"], 3), hash: hash(1), size: 3 },
    };
    assert!(planner.process_result(stray).is_empty());
    assert!(!planner.has_running_jobs());
    assert!(planner.has_scheduled_jobs());
    let (round, _) = planner.schedule_jobs();
    assert!(matches!(round, ScheduleJobsResult::Pending));
}

#[test]
fn unchanged_files_are_taken_from_the_cache() {
    let (written, hashed) = run_planner_with_cache(vec![cached_entry(5, 4)]);
    assert_eq!(hashed, 0);
    assert!(written.is_empty());
}

#[test]
fn changed_files_are_hashed_again() {
    let (written, hashed) = run_planner_with_cache(vec![cached_entry(6, 4)]);
    assert_eq!(hashed, 1);
    assert_eq!(written[0].hash, hash(9));
}

#[test]
fn a_planner_without_work_exits_prematurely() {
    let mut planner = JobPlanner::new(FileCache::new(Vec::new()));
    let (round, jobs) = planner.schedule_jobs();
    assert!(jobs.is_empty());
    match planner.next_step(round) {
        PlannerStep::Fail(place, why) => {
            assert!(place.is_empty());
            assert_eq!(why, "Premature exit!");
        }
        other => panic!("unexpected {other:?}"),
    }
}

#[test]
fn a_failed_top_level_job_ends_the_build_with_its_error() {
    let mut planner = JobPlanner::new(FileCache::new(Vec::new()));
    planner.schedule_initial_job(names(&["/", "gone"]));
    for _ in 0..10 {
        let (round, jobs) = planner.schedule_jobs();
        for job in jobs {
            planner.mark_published(job.job_id, job.node_id);
            let result = match &job.data {
                BuildJobData::Initial(path) => failure_at(path.clone(), "No such file".to_string()),
                other => panic!("unexpected job {other:?}"),
            };
            planner.process_result(JobResult { job_id: job.job_id, node_id: job.node_id, result });
        }
        match planner.next_step(round) {
            PlannerStep::Drain(Err((place, why))) => {
                assert_eq!(place, names(&["/", "gone"]));
                assert_eq!(why, "No such file");
                return;
            }
            PlannerStep::Drain(Ok(())) => panic!("the build must fail"),
            PlannerStep::Fail(place, why) => panic!("failed at {place:?}: {why}"),
            PlannerStep::Schedule | PlannerStep::Receive => {}
        }
    }
    panic!("the build did not end");
}

#[test]
fn initial_evaluation_keeps_the_cached_entry() {
    let mut planner = JobPlanner::new(FileCache::new(vec![cached_entry(5, 4)]));
    assert_eq!(planner.schedule_initial_job(names(&["/", "f"])), Some(1));
    let (_, jobs) = planner.schedule_jobs();
    assert_eq!(jobs.len(), 1);
    let job = &jobs[0];
    planner.mark_published(job.job_id, job.node_id);
    let info = DirectoryEntry { path: names(&["/", "f"]), modified: 5, file_type: FileType::File, file_size: 3 };
    planner.process_result(JobResult { job_id: job.job_id, node_id: job.node_id, result: JobResultData::InitialEvaluation { info } });
    assert_eq!(planner.cache.entries.len(), 1);
}
