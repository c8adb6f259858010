use object_archiver::archive::archive;
use object_archiver::archive::compress;
use object_archiver::archive::ArchiveError;
use object_archiver::archive::ArchivePlan;
use object_archiver::archive::ArchiveRun;
use object_archiver::archive::RunAction;
use object_archiver::archive::RunError;
use object_archiver::archive::RunEvent;
use object_archiver::archive::RunPhase;
use object_archiver::deletion::BatchOutcome;
use object_archiver::deletion::DeletionReport;
use object_archiver::encoder::entry_header;
use object_archiver::encoder::EncodingError;
use object_archiver::listing::ListRequest;
use object_archiver::listing::ListedObject;
use object_archiver::listing::ListingError;
use object_archiver::listing::ObjectDescriptor;
use object_archiver::uploader::SinkState;

const NEW_YEAR: i64 = 1_704_067_200;

fn entry(key: &str, size: i64, last_modified: i64) -> ListedObject {
    ListedObject { key: Some(key.to_string()), size: Some(size), last_modified: Some(last_modified) }
}

fn plan() -> ArchivePlan {
    archive("s3://source/logs/", "s3://archive/old", Some(NEW_YEAR), 2_000_000_000, 5).unwrap()
}

fn archive_of(key: &str, size: u64, last_modified: i64) -> RunAction {
    let header =
        entry_header(&ObjectDescriptor { key: key.to_string(), size, last_modified }).unwrap();
    RunAction::ArchiveObject { key: key.to_string(), size, last_modified, header }
}

fn list(token: Option<&str>) -> RunAction {
    RunAction::ListPage(ListRequest {
        bucket: "source".to_string(),
        prefix: Some("logs/".to_string()),
        continuation_token: token.map(|t| t.to_string()),
    })
}

fn delete(keys: &[&str]) -> RunAction {
    RunAction::DeleteBatch {
        bucket: "source".to_string(),
        keys: keys.iter().map(|k| k.to_string()).collect(),
    }
}

fn started() -> ArchiveRun {
    let (run, first) = compress(&plan());
    assert_eq!(first, list(None));
    run
}

#[test]
fn plan_of_a_run() {
    let plan = plan();
    assert_eq!(
        plan,
        ArchivePlan {
            source_bucket: "source".to_string(),
            source_prefix: Some("logs/".to_string()),
            destination_bucket: "archive".to_string(),
            destination_key: "old/archive_20240101_000000.tar.xz".to_string(),
            cutoff: NEW_YEAR,
            threshold: 5,
        }
    );
}

#[test]
fn plan_without_cutoff_takes_a_second_ago() {
    let plan = archive("s3://source", "s3://archive/old/", None, NEW_YEAR + 1, 100).unwrap();
    assert_eq!(plan.cutoff, NEW_YEAR);
    assert_eq!(plan.source_prefix, None);
    assert_eq!(plan.destination_key, "old/archive_20240101_000000.tar.xz");
}

#[test]
fn plan_without_destination_prefix_has_the_plain_name() {
    let plan = archive("s3://source", "s3://archive", Some(NEW_YEAR), 0, 100).unwrap();
    assert_eq!(plan.destination_key, "archive.tar.xz");
    let far = archive("s3://source", "s3://archive", Some(i64::MAX), 0, 100).unwrap();
    assert_eq!(far.destination_key, "archive.tar.xz");
    assert_eq!(far.cutoff, i64::MAX);
}

#[test]
fn plan_needs_two_locations() {
    assert_eq!(
        archive("source", "s3://archive", Some(0), 0, 100),
        Err(ArchiveError::InvalidSourceUrl)
    );
    assert_eq!(
        archive("http://source", "archive", Some(0), 0, 100),
        Err(ArchiveError::InvalidSourceUrl)
    );
    assert_eq!(
        archive("s3://source", "gs://archive", Some(0), 0, 100),
        Err(ArchiveError::InvalidDestinationUrl)
    );
}

#[test]
fn plan_needs_a_part_size() {
    assert_eq!(
        archive("s3://source", "s3://archive", Some(0), 0, 0),
        Err(ArchiveError::ZeroBufferSize)
    );
}

#[test]
fn plan_needs_a_cutoff_with_a_date() {
    assert_eq!(
        archive("s3://source", "s3://archive/old", Some(i64::MAX), 0, 100),
        Err(ArchiveError::CutoffOutOfRange)
    );
}

#[test]
fn plan_makes_the_sink_of_its_destination() {
    let sink = plan().sink();
    assert_eq!(sink.bucket(), "archive");
    assert_eq!(sink.key(), "old/archive_20240101_000000.tar.xz");
    assert_eq!(sink.threshold(), 5);
    assert_eq!(sink.state(), SinkState::Idle);
}

#[test]
fn three_objects_two_of_them_old() {
    let mut run = started();
    assert_eq!(run.phase(), RunPhase::Listing);
    let page = vec![
        entry("logs/a", 10, 1_704_067_199),
        entry("logs/b", 20, 1_704_067_201),
        entry("logs/c", 30, 1_685_577_600),
    ];
    let first = run.advance(RunEvent::PageListed { entries: page, next_token: None });
    assert_eq!(first, archive_of("logs/a", 10, 1_704_067_199));
    assert_eq!(run.phase(), RunPhase::Archiving);
    let second = run.advance(RunEvent::EntryWritten { bytes: 10 });
    assert_eq!(second, archive_of("logs/c", 30, 1_685_577_600));
    let third = run.advance(RunEvent::EntryWritten { bytes: 30 });
    assert_eq!(third, RunAction::FinishArchive);
    assert_eq!(run.phase(), RunPhase::Finishing);
    assert_eq!(run.embedded_count(), 2);
    let fourth = run.advance(RunEvent::ArchiveFinished);
    assert_eq!(fourth, delete(&["logs/a", "logs/c"]));
    assert_eq!(run.phase(), RunPhase::Deleting);
    let last = run.advance(RunEvent::BatchDone(BatchOutcome::Deleted { deleted: 2, failed: 0 }));
    assert_eq!(
        last,
        RunAction::Finished(DeletionReport {
            batches_sent: 1,
            batches_failed: 0,
            batches_skipped: 0,
            keys_deleted: 2,
            keys_failed: 0,
            keys_dropped: 0,
        })
    );
    assert_eq!(run.phase(), RunPhase::Done);
}

#[test]
fn pages_are_followed_to_the_end() {
    let mut run = started();
    let action = run.advance(RunEvent::PageListed {
        entries: vec![entry("too-new", 1, NEW_YEAR)],
        next_token: Some("t1".to_string()),
    });
    assert_eq!(action, list(Some("t1")));
    let action = run.advance(RunEvent::PageListed {
        entries: vec![entry("x", 1, 5)],
        next_token: Some("t2".to_string()),
    });
    assert_eq!(action, archive_of("x", 1, 5));
    let action = run.advance(RunEvent::EntryWritten { bytes: 1 });
    assert_eq!(action, list(Some("t2")));
    let action = run.advance(RunEvent::PageListed { entries: vec![], next_token: None });
    assert_eq!(action, RunAction::FinishArchive);
}

#[test]
fn object_that_cannot_be_fetched_is_not_deleted() {
    let mut run = started();
    let page = vec![entry("a", 1, 1), entry("b", 2, 2), entry("c", 3, 3)];
    run.advance(RunEvent::PageListed { entries: page, next_token: None });
    run.advance(RunEvent::EntryWritten { bytes: 1 });
    let action = run.advance(RunEvent::FetchFailed { message: "503".to_string() });
    assert_eq!(action, archive_of("c", 3, 3));
    run.advance(RunEvent::EntryWritten { bytes: 3 });
    assert_eq!(run.embedded_count(), 2);
    let action = run.advance(RunEvent::ArchiveFinished);
    assert_eq!(action, delete(&["a", "c"]));
}

#[test]
fn nothing_embedded_means_nothing_deleted() {
    let mut run = started();
    run.advance(RunEvent::PageListed { entries: vec![entry("a", 1, 1)], next_token: None });
    let action = run.advance(RunEvent::FetchFailed { message: "gone".to_string() });
    assert_eq!(action, RunAction::FinishArchive);
    let action = run.advance(RunEvent::ArchiveFinished);
    assert_eq!(
        action,
        RunAction::Finished(DeletionReport {
            batches_sent: 0,
            batches_failed: 0,
            batches_skipped: 0,
            keys_deleted: 0,
            keys_failed: 0,
            keys_dropped: 0,
        })
    );
}

#[test]
fn failed_finish_deletes_nothing() {
    let mut run = started();
    run.advance(RunEvent::PageListed { entries: vec![entry("a", 1, 1)], next_token: None });
    run.advance(RunEvent::EntryWritten { bytes: 1 });
    let action = run.advance(RunEvent::FinishFailed { message: "upload broke".to_string() });
    assert_eq!(action, RunAction::Failed(RunError::Upload("upload broke".to_string())));
    assert_eq!(run.phase(), RunPhase::Failed);
    for _ in 0..3 {
        let again = run.advance(RunEvent::ArchiveFinished);
        assert_eq!(again, RunAction::Failed(RunError::Upload("upload broke".to_string())));
    }
    let again = run.advance(RunEvent::BatchDone(BatchOutcome::Deleted { deleted: 1, failed: 0 }));
    assert_eq!(again, RunAction::Failed(RunError::Upload("upload broke".to_string())));
}

#[test]
fn failed_listing_ends_the_run() {
    let mut run = started();
    let action = run.advance(RunEvent::ListFailed { message: "denied".to_string() });
    assert_eq!(
        action,
        RunAction::Failed(RunError::Listing(ListingError::PageFailed("denied".to_string())))
    );
    assert_eq!(run.phase(), RunPhase::Failed);
}

#[test]
fn failed_later_page_ends_the_run_without_deletion() {
    let mut run = started();
    run.advance(RunEvent::PageListed {
        entries: vec![entry("a", 1, 1)],
        next_token: Some("t".to_string()),
    });
    let action = run.advance(RunEvent::EntryWritten { bytes: 1 });
    assert_eq!(action, list(Some("t")));
    let action = run.advance(RunEvent::ListFailed { message: "down".to_string() });
    assert_eq!(
        action,
        RunAction::Failed(RunError::Listing(ListingError::PageFailed("down".to_string())))
    );
    assert_eq!(run.embedded_count(), 1);
    let again = run.advance(RunEvent::ArchiveFinished);
    assert!(matches!(again, RunAction::Failed(_)));
}

#[test]
fn faulty_entry_ends_the_run() {
    let mut run = started();
    let page = vec![
        entry("a", 1, 1),
        ListedObject { key: Some("b".to_string()), size: None, last_modified: Some(2) },
    ];
    let action = run.advance(RunEvent::PageListed { entries: page, next_token: None });
    assert_eq!(action, RunAction::Failed(RunError::Listing(ListingError::MissingSize)));
}

#[test]
fn entry_of_another_length_ends_the_run() {
    let mut run = started();
    run.advance(RunEvent::PageListed { entries: vec![entry("a", 10, 1)], next_token: None });
    let action = run.advance(RunEvent::EntryWritten { bytes: 9 });
    assert_eq!(
        action,
        RunAction::Failed(RunError::Encoding(EncodingError::SizeMismatch {
            declared: 10,
            streamed: 9,
        }))
    );
}

#[test]
fn failed_entry_ends_the_run() {
    let mut run = started();
    run.advance(RunEvent::PageListed { entries: vec![entry("a", 10, 1)], next_token: None });
    let action = run.advance(RunEvent::EntryFailed { message: "sink failed".to_string() });
    assert_eq!(
        action,
        RunAction::Failed(RunError::Encoding(EncodingError::Failed("sink failed".to_string())))
    );
}

#[test]
fn object_from_before_the_epoch_ends_the_run() {
    let mut run = started();
    let action =
        run.advance(RunEvent::PageListed { entries: vec![entry("a", 10, -5)], next_token: None });
    assert_eq!(action, RunAction::Failed(RunError::Encoding(EncodingError::NegativeTimestamp)));
}

#[test]
fn event_that_answers_nothing_ends_the_run() {
    let mut run = started();
    let action = run.advance(RunEvent::ArchiveFinished);
    assert_eq!(action, RunAction::Failed(RunError::UnexpectedEvent));
    let mut run = started();
    run.advance(RunEvent::PageListed { entries: vec![entry("a", 1, 1)], next_token: None });
    let action = run.advance(RunEvent::ArchiveFinished);
    assert_eq!(action, RunAction::Failed(RunError::UnexpectedEvent));
    let mut run = started();
    run.advance(RunEvent::PageListed { entries: vec![], next_token: None });
    let action = run.advance(RunEvent::EntryWritten { bytes: 0 });
    assert_eq!(action, RunAction::Failed(RunError::UnexpectedEvent));
}

#[test]
fn failed_batch_is_followed_by_the_next() {
    let mut run = started();
    let entries: Vec<ListedObject> = (0..2500).map(|i| entry(&format!("k{}", i), 1, 1)).collect();
    let mut action = run.advance(RunEvent::PageListed { entries, next_token: None });
    while let RunAction::ArchiveObject { .. } = action {
        action = run.advance(RunEvent::EntryWritten { bytes: 1 });
    }
    assert_eq!(action, RunAction::FinishArchive);
    let mut sizes = Vec::new();
    let mut action = run.advance(RunEvent::ArchiveFinished);
    while let RunAction::DeleteBatch { keys, .. } = &action {
        sizes.push(keys.len());
        let outcome = if sizes.len() == 1 {
            BatchOutcome::TransportFailed("reset".to_string())
        } else {
            BatchOutcome::Deleted { deleted: keys.len() - 1, failed: 1 }
        };
        action = run.advance(RunEvent::BatchDone(outcome));
    }
    assert_eq!(sizes, vec![1000, 1000, 500]);
    assert_eq!(
        action,
        RunAction::Finished(DeletionReport {
            batches_sent: 3,
            batches_failed: 1,
            batches_skipped: 0,
            keys_deleted: 1498,
            keys_failed: 2,
            keys_dropped: 0,
        })
    );
    let again = run.advance(RunEvent::ArchiveFinished);
    assert_eq!(again, action);
}

#[test]
fn stray_event_while_finishing_ends_the_run_without_deletion() {
    let mut run = started();
    run.advance(RunEvent::PageListed { entries: vec![entry("a", 1, 1)], next_token: None });
    let action = run.advance(RunEvent::EntryWritten { bytes: 1 });
    assert_eq!(action, RunAction::FinishArchive);
    let action = run.advance(RunEvent::EntryWritten { bytes: 1 });
    assert_eq!(action, RunAction::Failed(RunError::UnexpectedEvent));
    let action = run.advance(RunEvent::ArchiveFinished);
    assert_eq!(action, RunAction::Failed(RunError::UnexpectedEvent));
}

#[test]
fn stray_event_while_deleting_ends_the_run() {
    let mut run = started();
    run.advance(RunEvent::PageListed { entries: vec![entry("a", 1, 1)], next_token: None });
    run.advance(RunEvent::EntryWritten { bytes: 1 });
    let action = run.advance(RunEvent::ArchiveFinished);
    assert_eq!(action, delete(&["a"]));
    let action = run.advance(RunEvent::ArchiveFinished);
    assert_eq!(action, RunAction::Failed(RunError::UnexpectedEvent));
    assert_eq!(run.phase(), RunPhase::Failed);
}

#[test]
fn listing_is_asked_with_the_source_prefix_or_without() {
    let plan = archive("s3://source", "s3://archive", Some(NEW_YEAR), 0, 8).unwrap();
    let (_, first) = compress(&plan);
    assert_eq!(
        first,
        RunAction::ListPage(ListRequest {
            bucket: "source".to_string(),
            prefix: None,
            continuation_token: None,
        })
    );
}
