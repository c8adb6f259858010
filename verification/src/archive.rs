//! The archive orchestrator: one run from the first listing page to the last
//! deletion batch.
//!
//! A run performs no I/O. It hands out one action at a time; the caller
//! performs it and reports what happened as an event, and the run answers
//! with the next action. The source objects are deleted only after the
//! archive was committed: a run that fails at any point before hands out no
//! deletion at all.

use crate::cutoff::cutoff_stamp;
use crate::cutoff::effective_cutoff;
use crate::cutoff::effective_cutoff_of;
use crate::cutoff::stamp_pattern;
use crate::cutoff::utc_formatted;
use crate::deletion::batch_end;
use crate::deletion::batch_start;
use crate::deletion::batches_needed;
use crate::deletion::delete_keys;
use crate::deletion::key_texts;
use crate::deletion::lemma_every_batch_is_attempted;
use crate::deletion::lemma_next_keeps_inv;
use crate::deletion::lemma_outcome_keeps_going;
use crate::deletion::BatchOutcome;
use crate::deletion::BatcherView;
use crate::deletion::DeletionBatcher;
use crate::deletion::DeletionReport;
use crate::deletion::BATCH_LIMIT;
use crate::encoder::check_entry;
use crate::encoder::entry_header;
use crate::encoder::gnu_header;
use crate::encoder::EncodingError;
use crate::encoder::ENTRY_MODE;
use crate::listing::duplicate_optional;
use crate::listing::eligible;
use crate::listing::lemma_eligible_is_older;
use crate::listing::lemma_eligible_of_pages;
use crate::listing::Enumerator;
use crate::listing::EnumeratorState;
use crate::listing::EnumeratorView;
use crate::listing::ListRequest;
use crate::listing::ListedObject;
use crate::listing::ListingError;
use crate::listing::ObjectDescriptor;
use crate::location::destination_key;
use crate::location::destination_key_text;
use crate::location::parse_url;
use crate::location::parsed_url;
use crate::uploader::MultipartUploadSink;
use crate::uploader::SinkState;
use crate::uploader::SinkView;
use vstd::prelude::*;

verus! {

/// Why a run cannot be planned.
#[derive(Debug, PartialEq, Eq)]
pub enum ArchiveError {
    /// The source is no location of the store.
    InvalidSourceUrl,
    /// The destination is no location of the store.
    InvalidDestinationUrl,
    /// The cutoff has no date to name the archive by.
    CutoffOutOfRange,
    /// The part size is 0.
    ZeroBufferSize,
}

/// Why a run failed. Every failure is final, and none is followed by a
/// deletion.
#[derive(Debug, PartialEq, Eq)]
pub enum RunError {
    /// The listing could not be trusted.
    Listing(ListingError),
    /// An entry could not be encoded.
    Encoding(EncodingError),
    /// The archive could not be finished and committed.
    Upload(String),
    /// An event was reported that answers no action of the run.
    UnexpectedEvent,
}

/// What the run asks its caller to do next.
#[derive(Debug, PartialEq, Eq)]
pub enum RunAction {
    /// List a page of the source.
    ListPage(ListRequest),
    /// Fetch the object and append it to the archive under this header, with
    /// its key as the entry's name.
    ArchiveObject { key: String, size: u64, last_modified: i64, header: Vec<u8> },
    /// Finish the archive and close the sink.
    FinishArchive,
    /// Delete these keys of this bucket in one call.
    DeleteBatch { bucket: String, keys: Vec<String> },
    /// The run is over: the archive is committed, and this is the account of
    /// the deletion.
    Finished(DeletionReport),
    /// The run is over: it failed, and nothing was deleted after that.
    Failed(RunError),
}

/// What the caller reports of the action that it was asked for.
#[derive(Debug, PartialEq, Eq)]
pub enum RunEvent {
    /// The store delivered the page.
    PageListed { entries: Vec<ListedObject>, next_token: Option<String> },
    /// The store did not deliver the page.
    ListFailed { message: String },
    /// The object was fetched and written into the archive: so many bytes.
    EntryWritten { bytes: u64 },
    /// The object could not be fetched. Nothing of it is in the archive.
    FetchFailed { message: String },
    /// The encoder or the sink failed while the entry was written.
    EntryFailed { message: String },
    /// The archive is finished and committed to the store.
    ArchiveFinished,
    /// The archive could not be finished or committed.
    FinishFailed { message: String },
    /// The batch was dealt with.
    BatchDone(BatchOutcome),
}

/// How far a run has come.
#[derive(Clone, Copy, Debug, PartialEq, Eq, Structural)]
pub enum RunPhase {
    /// A page was asked for.
    Listing,
    /// An object is being archived.
    Archiving,
    /// The archive is being finished.
    Finishing,
    /// A batch is being deleted.
    Deleting,
    /// The run is over, with the archive committed.
    Done,
    /// The run is over, in failure.
    Failed,
}

/// The object that an action archives.
pub open spec fn archived_object(action: RunAction) -> Option<ObjectDescriptor> {
    match action {
        RunAction::ArchiveObject { key, size, last_modified, header } => Some(
            ObjectDescriptor { key, size, last_modified },
        ),
        _ => None,
    }
}

/// The objects that the actions archive, oldest first.
pub open spec fn archived(actions: Seq<RunAction>) -> Seq<ObjectDescriptor>
    decreases actions.len(),
{
    if actions.len() == 0 {
        Seq::empty()
    } else {
        match archived_object(actions.last()) {
            Some(object) => archived(actions.drop_last()).push(object),
            None => archived(actions.drop_last()),
        }
    }
}

/// The answer `event` to `action` says that the object of the action was
/// written whole into the archive.
pub open spec fn written_whole(action: RunAction, event: RunEvent) -> bool {
    &&& action matches RunAction::ArchiveObject { key, size, last_modified, header }
    &&& event matches RunEvent::EntryWritten { bytes }
    &&& bytes == size
}

/// The keys of the objects that were written whole into the archive, oldest
/// first: those actions whose answer, the event at the same index, says so.
pub open spec fn embedded_keys(actions: Seq<RunAction>, events: Seq<RunEvent>) -> Seq<String>
    decreases events.len(),
{
    if events.len() == 0 {
        Seq::empty()
    } else {
        let last = events.len() - 1;
        let before = embedded_keys(actions, events.drop_last());
        if written_whole(actions[last], events[last]) {
            before.push(actions[last]->ArchiveObject_key)
        } else {
            before
        }
    }
}

/// The batches that the actions delete, as the texts of their keys, oldest
/// first.
pub open spec fn deleted(actions: Seq<RunAction>) -> Seq<Seq<Seq<char>>>
    decreases actions.len(),
{
    if actions.len() == 0 {
        Seq::empty()
    } else {
        match actions.last() {
            RunAction::DeleteBatch { bucket, keys } => deleted(actions.drop_last()).push(
                key_texts(keys@),
            ),
            _ => deleted(actions.drop_last()),
        }
    }
}

/// A run as the contracts see it: where it stands, and the record of what was
/// asked and reported.
pub struct RunView {
    pub source_bucket: String,
    pub cutoff: i64,
    pub phase: RunPhase,
    /// The error of a failed run.
    pub error: Option<RunError>,
    pub enumerator: EnumeratorView,
    /// The eligible objects of the newest page that are not yet dealt with.
    pub pending: Seq<ObjectDescriptor>,
    /// The object that is being archived.
    pub current: Option<ObjectDescriptor>,
    /// The keys of the objects that are whole in the archive, oldest first.
    pub embedded: Seq<String>,
    /// The index of the action that asked to finish the archive.
    pub finish: Option<int>,
    /// The deletion, once the archive is committed.
    pub batcher: Option<BatcherView>,
    /// Every action handed out, oldest first.
    pub actions: Seq<RunAction>,
    /// Every event taken, oldest first: the event at an index answers the
    /// action at that index.
    pub events: Seq<RunEvent>,
}

impl RunView {
    /// The archive is committed: the action that asked to finish it was
    /// answered with success.
    pub open spec fn committed(self) -> bool {
        &&& self.finish matches Some(f)
        &&& 0 <= f < self.events.len()
        &&& self.events[f] is ArchiveFinished
    }

    /// The run is over.
    pub open spec fn is_over(self) -> bool {
        self.phase == RunPhase::Done || self.phase == RunPhase::Failed
    }

    /// The action at `index` is in its place: before the archive is finished
    /// come listings and objects, each object eligible; then the finishing;
    /// after it deletions. The newest action alone may end the run.
    pub open spec fn action_ok(self, index: int) -> bool {
        let action = self.actions[index];
        let is_last = index == self.actions.len() - 1;
        match action {
            RunAction::ListPage(_) => self.finish matches Some(f) ==> index < f,
            RunAction::ArchiveObject { key, size, last_modified, header } => {
                &&& self.finish matches Some(f) ==> index < f
                &&& last_modified < self.cutoff
                &&& last_modified >= 0
                &&& header@ == gnu_header(size, ENTRY_MODE, last_modified as u64)
            },
            RunAction::FinishArchive => self.finish == Some(index),
            RunAction::DeleteBatch { bucket, keys } => {
                &&& self.committed()
                &&& self.finish.unwrap() < index
                &&& bucket == self.source_bucket
            },
            RunAction::Finished(report) => {
                &&& is_last
                &&& self.phase == RunPhase::Done
                &&& self.batcher matches Some(b)
                &&& report == b.report
            },
            RunAction::Failed(error) => {
                &&& is_last
                &&& self.phase == RunPhase::Failed
                &&& self.error == Some(error)
            },
        }
    }

    /// What holds of the newest action in each phase.
    pub open spec fn phase_ok(self) -> bool {
        match self.phase {
            RunPhase::Listing => {
                &&& self.actions.last() is ListPage
                &&& Some(self.actions.last()->ListPage_0) == self.enumerator.next_request()
                &&& self.pending.len() == 0
                &&& self.finish is None
            },
            RunPhase::Archiving => {
                &&& self.current matches Some(object)
                &&& archived_object(self.actions.last()) == Some(object)
                &&& self.finish is None
                &&& !(self.enumerator.state is Failed)
            },
            RunPhase::Finishing => {
                &&& self.actions.last() is FinishArchive
                &&& self.finish == Some(self.actions.len() - 1)
                &&& self.pending.len() == 0
                &&& self.enumerator.state is Done
            },
            RunPhase::Deleting => {
                &&& self.actions.last() is DeleteBatch
                &&& self.batcher matches Some(b)
                &&& b.awaiting()
            },
            RunPhase::Done => {
                &&& self.actions.last() is Finished
                &&& self.batcher matches Some(b)
                &&& b.finished()
            },
            RunPhase::Failed => self.actions.last() is Failed && self.error is Some,
        }
    }

    /// What the record of every run holds.
    ///
    /// Every action is in its place. The objects archived so far, followed by
    /// those still pending, are the eligible objects of the pages listed, in
    /// the listing's order. The embedded keys are those of the objects that
    /// were written whole. Deletion exists only once the archive is
    /// committed: it deletes the embedded keys and no others.
    pub open spec fn recorded(self) -> bool {
        &&& self.enumerator.cutoff == self.cutoff
        &&& self.enumerator.bucket == self.source_bucket
        &&& self.embedded.len() <= usize::MAX
        &&& forall|i: int| 0 <= i < self.actions.len() ==> self.action_ok(i)
        &&& archived(self.actions) + self.pending == eligible(self.enumerator.listed, self.cutoff)
        &&& self.embedded == embedded_keys(self.actions, self.events)
        &&& self.finish matches Some(f) ==> 0 <= f < self.actions.len()
            && self.actions[f] is FinishArchive
        &&& self.finish is Some ==> self.pending.len() == 0 && self.enumerator.state is Done
        &&& self.committed() <==> self.batcher is Some
        &&& self.batcher matches Some(b) ==> {
            &&& b.inv()
            &&& b.keys == self.embedded
            &&& b.limit == BATCH_LIMIT
            &&& b.sent == deleted(self.actions)
        }
        &&& self.batcher is None ==> deleted(self.actions).len() == 0
    }

    /// The invariant of every run: each action but the newest has its
    /// answer, the newest is the one that the phase calls for, and the record
    /// is in order.
    pub open spec fn inv(self) -> bool {
        &&& self.actions.len() == self.events.len() + 1
        &&& self.phase_ok()
        &&& self.recorded()
    }

    /// Every action has its answer, and the run is about to say what comes
    /// next.
    pub open spec fn answered(self) -> bool {
        &&& self.actions.len() == self.events.len()
        &&& !self.is_over()
        &&& self.recorded()
    }
}

impl RunView {
    /// This run with `event` taken.
    pub open spec fn took(self, event: RunEvent) -> RunView {
        RunView { events: self.events.push(event), ..self }
    }

    /// `post` is this run after it has failed with `error`, and `action` says
    /// so.
    pub open spec fn failed(self, error: RunError, post: RunView, action: RunAction) -> bool {
        &&& action == RunAction::Failed(error)
        &&& post == (RunView {
            phase: RunPhase::Failed,
            error: Some(error),
            actions: self.actions.push(action),
            ..self
        })
    }

    /// `post` is this run after it has gone on with the archive, and `action`
    /// what it asks for: the next pending object, under its header; with none
    /// pending, the next page; with no page left, the finishing. An object
    /// that no header can hold fails the run.
    pub open spec fn proceeded(self, post: RunView, action: RunAction) -> bool {
        if self.pending.len() > 0 {
            let object = self.pending[0];
            if object.last_modified < 0 {
                self.failed(RunError::Encoding(EncodingError::NegativeTimestamp), post, action)
            } else {
                &&& action matches RunAction::ArchiveObject { key, size, last_modified, header }
                &&& key == object.key
                &&& size == object.size
                &&& last_modified == object.last_modified
                &&& header@ == gnu_header(object.size, ENTRY_MODE, object.last_modified as u64)
                &&& post == (RunView {
                    phase: RunPhase::Archiving,
                    pending: self.pending.drop_first(),
                    current: Some(object),
                    actions: self.actions.push(action),
                    ..self
                })
            }
        } else {
            match self.enumerator.next_request() {
                Some(request) => {
                    &&& action == RunAction::ListPage(request)
                    &&& post == (RunView {
                        phase: RunPhase::Listing,
                        current: None,
                        actions: self.actions.push(action),
                        ..self
                    })
                },
                None => {
                    &&& action == RunAction::FinishArchive
                    &&& post == (RunView {
                        phase: RunPhase::Finishing,
                        current: None,
                        finish: Some(self.actions.len() as int),
                        actions: self.actions.push(action),
                        ..self
                    })
                },
            }
        }
    }

    /// `post` is this run after it has gone on with the deletion, and
    /// `action` what it asks for: the next batch of the embedded keys, or,
    /// with no key left, nothing more.
    pub open spec fn deletion_continued(self, post: RunView, action: RunAction) -> bool {
        let batcher = self.batcher.unwrap();
        if batcher.position == batcher.keys.len() {
            &&& action == RunAction::Finished(batcher.report)
            &&& post == (RunView {
                phase: RunPhase::Done,
                actions: self.actions.push(action),
                ..self
            })
        } else {
            &&& action matches RunAction::DeleteBatch { bucket, keys }
            &&& bucket == self.source_bucket
            &&& post.batcher matches Some(next)
            &&& batcher.next_step(next, Some(keys))
            &&& post == (RunView {
                phase: RunPhase::Deleting,
                batcher: post.batcher,
                actions: self.actions.push(action),
                ..self
            })
        }
    }

    /// The batcher with which the deletion of the embedded keys begins.
    pub open spec fn first_batcher(self) -> BatcherView {
        BatcherView {
            keys: self.embedded,
            limit: BATCH_LIMIT as int,
            position: 0,
            sent: Seq::empty(),
            outcomes: Seq::empty(),
            report: DeletionReport::empty(),
        }
    }

    /// `post` is the run after `event`, and `action` what it asks for next.
    ///
    /// While listing: a page hands its eligible objects to the archive, a
    /// faulty page or a page that did not come fails the run. While
    /// archiving: an object that was written whole is embedded; one that
    /// could not be fetched is passed over; one whose bytes were not as many
    /// as declared, or whose writing failed, fails the run. While finishing:
    /// success commits the archive and begins the deletion of the embedded
    /// keys; failure fails the run. While deleting: whatever came of the
    /// batch is recorded, and the next batch follows. An event that does not
    /// answer the action fails the run. A run that is over stays as it is
    /// and repeats its last word.
    pub open spec fn step(self, event: RunEvent, post: RunView, action: RunAction) -> bool {
        let took = self.took(event);
        match self.phase {
            RunPhase::Done => post == self && action == RunAction::Finished(
                self.batcher.unwrap().report,
            ),
            RunPhase::Failed => post == self && action == RunAction::Failed(self.error.unwrap()),
            RunPhase::Listing => match event {
                RunEvent::PageListed { entries, next_token } => {
                    let listed = RunView {
                        enumerator: self.enumerator.after_page(entries@, next_token),
                        ..took
                    };
                    match self.enumerator.page_yield(entries@) {
                        Err(error) => listed.failed(RunError::Listing(error), post, action),
                        Ok(objects) => (RunView { pending: objects, ..listed }).proceeded(
                            post,
                            action,
                        ),
                    }
                },
                RunEvent::ListFailed { message } => {
                    let error = ListingError::PageFailed(message);
                    (RunView {
                        enumerator: EnumeratorView {
                            state: EnumeratorState::Failed(error),
                            ..self.enumerator
                        },
                        ..took
                    }).failed(RunError::Listing(error), post, action)
                },
                _ => took.failed(RunError::UnexpectedEvent, post, action),
            },
            RunPhase::Archiving => match event {
                RunEvent::EntryWritten { bytes } => {
                    let object = self.current.unwrap();
                    if bytes == object.size {
                        (RunView { embedded: self.embedded.push(object.key), ..took }).proceeded(
                            post,
                            action,
                        )
                    } else {
                        took.failed(
                            RunError::Encoding(
                                EncodingError::SizeMismatch {
                                    declared: object.size,
                                    streamed: bytes,
                                },
                            ),
                            post,
                            action,
                        )
                    }
                },
                RunEvent::FetchFailed { message } => took.proceeded(post, action),
                RunEvent::EntryFailed { message } => took.failed(
                    RunError::Encoding(EncodingError::Failed(message)),
                    post,
                    action,
                ),
                _ => took.failed(RunError::UnexpectedEvent, post, action),
            },
            RunPhase::Finishing => match event {
                RunEvent::ArchiveFinished => (RunView {
                    batcher: Some(self.first_batcher()),
                    ..took
                }).deletion_continued(post, action),
                RunEvent::FinishFailed { message } => took.failed(
                    RunError::Upload(message),
                    post,
                    action,
                ),
                _ => took.failed(RunError::UnexpectedEvent, post, action),
            },
            RunPhase::Deleting => match event {
                RunEvent::BatchDone(outcome) => (RunView {
                    batcher: Some(self.batcher.unwrap().after_outcome(outcome)),
                    ..took
                }).deletion_continued(post, action),
                _ => took.failed(RunError::UnexpectedEvent, post, action),
            },
        }
    }
}

/// One more action adds its object to those archived, if it archives one.
pub proof fn lemma_archived_push(actions: Seq<RunAction>, action: RunAction)
    ensures
        archived(actions.push(action)) == (match archived_object(action) {
            Some(object) => archived(actions).push(object),
            None => archived(actions),
        }),
{
    assert(actions.push(action).drop_last() == actions);
}

/// One more action adds its batch to those deleted, if it deletes one.
pub proof fn lemma_deleted_push(actions: Seq<RunAction>, action: RunAction)
    ensures
        deleted(actions.push(action)) == (match action {
            RunAction::DeleteBatch { bucket, keys } => deleted(actions).push(key_texts(keys@)),
            _ => deleted(actions),
        }),
{
    assert(actions.push(action).drop_last() == actions);
}

/// The embedded keys depend on the answered actions alone.
pub proof fn lemma_embedded_keys_of_answered(
    actions: Seq<RunAction>,
    longer: Seq<RunAction>,
    events: Seq<RunEvent>,
)
    requires
        events.len() <= actions.len() <= longer.len(),
        forall|i: int| 0 <= i < events.len() ==> actions[i] == longer[i],
    ensures
        embedded_keys(actions, events) == embedded_keys(longer, events),
    decreases events.len(),
{
    if events.len() > 0 {
        lemma_embedded_keys_of_answered(actions, longer, events.drop_last());
    }
}

/// One more answer, and the action after it, embed the key of the answered
/// action if the answer says that its object was written whole.
pub proof fn lemma_embedded_keys_push(
    actions: Seq<RunAction>,
    events: Seq<RunEvent>,
    event: RunEvent,
    action: RunAction,
)
    requires
        actions.len() == events.len() + 1,
    ensures
        embedded_keys(actions.push(action), events.push(event)) == (if written_whole(
            actions.last(),
            event,
        ) {
            embedded_keys(actions, events).push(actions.last()->ArchiveObject_key)
        } else {
            embedded_keys(actions, events)
        }),
{
    assert(events.push(event).drop_last() == events);
    lemma_embedded_keys_of_answered(actions, actions.push(action), events);
}


/// A failure leaves the run in order.
pub proof fn lemma_failed_keeps_inv(mid: RunView, error: RunError, post: RunView, action: RunAction)
    requires
        mid.answered(),
        mid.failed(error, post, action),
    ensures
        post.inv(),
{
    lemma_archived_push(mid.actions, action);
    lemma_deleted_push(mid.actions, action);
    lemma_embedded_keys_of_answered(mid.actions, post.actions, mid.events);
    assert forall|i: int| 0 <= i < post.actions.len() implies post.action_ok(i) by {
        if i < mid.actions.len() {
            assert(mid.action_ok(i));
        }
    }
}

/// Going on with the archive leaves the run in order.
pub proof fn lemma_proceeded_keeps_inv(mid: RunView, post: RunView, action: RunAction)
    requires
        mid.answered(),
        mid.finish is None,
        !(mid.enumerator.state is Failed),
        mid.proceeded(post, action),
    ensures
        post.inv(),
{
    if mid.pending.len() > 0 && mid.pending[0].last_modified < 0 {
        lemma_failed_keeps_inv(
            mid,
            RunError::Encoding(EncodingError::NegativeTimestamp),
            post,
            action,
        );
    } else {
        lemma_archived_push(mid.actions, action);
        lemma_deleted_push(mid.actions, action);
        lemma_embedded_keys_of_answered(mid.actions, post.actions, mid.events);
        if mid.pending.len() > 0 {
            let object = mid.pending[0];
            let all = eligible(mid.enumerator.listed, mid.cutoff);
            let place = archived(mid.actions).len() as int;
            lemma_eligible_is_older(mid.enumerator.listed, mid.cutoff);
            assert(all[place] == object);
            assert(archived_object(action) == Some(object));
            assert(archived(post.actions) + post.pending == all);
        }
        assert forall|i: int| 0 <= i < post.actions.len() implies post.action_ok(i) by {
            if i < mid.actions.len() {
                assert(mid.action_ok(i));
            }
        }
    }
}

/// Going on with the deletion leaves the run in order.
pub proof fn lemma_deletion_continued_keeps_inv(mid: RunView, post: RunView, action: RunAction)
    requires
        mid.answered(),
        mid.batcher matches Some(b) && !b.awaiting(),
        mid.deletion_continued(post, action),
    ensures
        post.inv(),
{
    let batcher = mid.batcher.unwrap();
    lemma_archived_push(mid.actions, action);
    lemma_deleted_push(mid.actions, action);
    lemma_embedded_keys_of_answered(mid.actions, post.actions, mid.events);
    if batcher.position != batcher.keys.len() {
        lemma_next_keeps_inv(batcher, post.batcher.unwrap(), Some(action->DeleteBatch_keys));
    }
    assert forall|i: int| 0 <= i < post.actions.len() implies post.action_ok(i) by {
        if i < mid.actions.len() {
            assert(mid.action_ok(i));
        }
    }
}

/// Every step leaves the run in order.
pub proof fn lemma_step_keeps_inv(pre: RunView, event: RunEvent, post: RunView, action: RunAction)
    requires
        pre.inv(),
        pre.step(event, post, action),
        post.embedded.len() <= usize::MAX,
    ensures
        post.inv(),
{
    let took = pre.took(event);
    if !pre.is_over() {
        assert(took.events.drop_last() == pre.events);
        assert forall|i: int| 0 <= i < took.actions.len() implies took.action_ok(i) by {
            assert(pre.action_ok(i));
        }
        match pre.phase {
            RunPhase::Listing => {
                assert(took.answered());
                match event {
                    RunEvent::PageListed { entries, next_token } => {
                        let listed = RunView {
                            enumerator: pre.enumerator.after_page(entries@, next_token),
                            ..took
                        };
                        assert forall|i: int| 0 <= i < listed.actions.len() implies listed.action_ok(
                            i,
                        ) by {
                            assert(took.action_ok(i));
                        }
                        match pre.enumerator.page_yield(entries@) {
                            Err(error) => {
                                assert(listed.answered());
                                lemma_failed_keeps_inv(
                                    listed,
                                    RunError::Listing(error),
                                    post,
                                    action,
                                );
                            },
                            Ok(objects) => {
                                let mid = RunView { pending: objects, ..listed };
                                lemma_eligible_of_pages(
                                    pre.enumerator.listed,
                                    entries@,
                                    pre.cutoff,
                                );
                                assert(archived(pre.actions) + pre.pending == archived(
                                    pre.actions,
                                ));
                                assert forall|i: int| 0 <= i < mid.actions.len() implies mid.action_ok(
                                    i,
                                ) by {
                                    assert(took.action_ok(i));
                                }
                                assert(mid.answered());
                                lemma_proceeded_keeps_inv(mid, post, action);
                            },
                        }
                    },
                    RunEvent::ListFailed { message } => {
                        let error = ListingError::PageFailed(message);
                        let mid = RunView {
                            enumerator: EnumeratorView {
                                state: EnumeratorState::Failed(error),
                                ..pre.enumerator
                            },
                            ..took
                        };
                        assert forall|i: int| 0 <= i < mid.actions.len() implies mid.action_ok(
                            i,
                        ) by {
                            assert(took.action_ok(i));
                        }
                        assert(mid.answered());
                        lemma_failed_keeps_inv(mid, RunError::Listing(error), post, action);
                    },
                    _ => {
                        lemma_failed_keeps_inv(took, RunError::UnexpectedEvent, post, action);
                    },
                }
            },
            RunPhase::Archiving => {
                match event {
                    RunEvent::EntryWritten { bytes } => {
                        let object = pre.current.unwrap();
                        if bytes == object.size {
                            let mid = RunView { embedded: pre.embedded.push(object.key), ..took };
                            assert forall|i: int| 0 <= i < mid.actions.len() implies mid.action_ok(
                                i,
                            ) by {
                                assert(took.action_ok(i));
                            }
                            assert(mid.answered());
                            lemma_proceeded_keeps_inv(mid, post, action);
                        } else {
                            assert(took.answered());
                            lemma_failed_keeps_inv(
                                took,
                                RunError::Encoding(
                                    EncodingError::SizeMismatch {
                                        declared: object.size,
                                        streamed: bytes,
                                    },
                                ),
                                post,
                                action,
                            );
                        }
                    },
                    RunEvent::FetchFailed { message } => {
                        assert(took.answered());
                        lemma_proceeded_keeps_inv(took, post, action);
                    },
                    RunEvent::EntryFailed { message } => {
                        assert(took.answered());
                        lemma_failed_keeps_inv(
                            took,
                            RunError::Encoding(EncodingError::Failed(message)),
                            post,
                            action,
                        );
                    },
                    _ => {
                        assert(took.answered());
                        lemma_failed_keeps_inv(took, RunError::UnexpectedEvent, post, action);
                    },
                }
            },
            RunPhase::Finishing => {
                match event {
                    RunEvent::ArchiveFinished => {
                        let mid = RunView { batcher: Some(pre.first_batcher()), ..took };
                        assert(mid.committed());
                        assert(deleted(pre.actions) =~= Seq::empty());
                        assert forall|i: int| 0 <= i < mid.actions.len() implies mid.action_ok(
                            i,
                        ) by {
                            assert(took.action_ok(i));
                        }
                        assert(mid.answered());
                        lemma_deletion_continued_keeps_inv(mid, post, action);
                    },
                    RunEvent::FinishFailed { message } => {
                        assert(took.answered());
                        lemma_failed_keeps_inv(took, RunError::Upload(message), post, action);
                    },
                    _ => {
                        assert(took.answered());
                        lemma_failed_keeps_inv(took, RunError::UnexpectedEvent, post, action);
                    },
                }
            },
            RunPhase::Deleting => {
                match event {
                    RunEvent::BatchDone(outcome) => {
                        let mid = RunView {
                            batcher: Some(pre.batcher.unwrap().after_outcome(outcome)),
                            ..took
                        };
                        lemma_outcome_keeps_going(pre.batcher.unwrap(), outcome);
                        assert forall|i: int| 0 <= i < mid.actions.len() implies mid.action_ok(
                            i,
                        ) by {
                            assert(took.action_ok(i));
                        }
                        assert(mid.answered());
                        lemma_deletion_continued_keeps_inv(mid, post, action);
                    },
                    _ => {
                        assert(took.answered());
                        lemma_failed_keeps_inv(took, RunError::UnexpectedEvent, post, action);
                    },
                }
            },
            _ => {},
        }
    }
}


/// One of the first `answered` actions archives the object with this key.
pub open spec fn archives_key(actions: Seq<RunAction>, answered: int, key: String) -> bool {
    exists|i: int|
        0 <= i < answered && (#[trigger] actions[i]) is ArchiveObject
            && actions[i]->ArchiveObject_key == key
}

impl RunView {
    /// The run has asked to archive an object with this key that was last
    /// modified before the cutoff.
    pub open spec fn archives_older(self, key: String) -> bool {
        exists|i: int|
            0 <= i < self.actions.len() && (#[trigger] self.actions[i]) is ArchiveObject
                && self.actions[i]->ArchiveObject_key == key
                && self.actions[i]->ArchiveObject_last_modified < self.cutoff
    }

    /// The text is that of an embedded key.
    pub open spec fn is_embedded(self, text: Seq<char>) -> bool {
        exists|k: int| 0 <= k < self.embedded.len() && (#[trigger] self.embedded[k])@ == text
    }

    /// The text is that of a key which the run has asked to delete.
    pub open spec fn is_deleted(self, text: Seq<char>) -> bool {
        exists|b: int, j: int|
            0 <= b < deleted(self.actions).len() && 0 <= j < deleted(self.actions)[b].len()
                && #[trigger] deleted(self.actions)[b][j] == text
    }
}

/// Only objects that were last modified before the cutoff are archived, and
/// only keys of archived objects are deleted: every object that the run asks
/// to archive is older than the cutoff, every embedded key is the key of such
/// an object, and the keys of every deleted batch are embedded keys.
pub proof fn lemma_only_older_objects(run: RunView)
    requires
        run.inv(),
    ensures
        forall|i: int|
            0 <= i < run.actions.len() && (#[trigger] run.actions[i]) is ArchiveObject
                ==> run.actions[i]->ArchiveObject_last_modified < run.cutoff,
        forall|k: int|
            0 <= k < run.embedded.len() ==> run.archives_older(#[trigger] run.embedded[k]),
        forall|b: int, j: int|
            0 <= b < deleted(run.actions).len() && 0 <= j < deleted(run.actions)[b].len()
                ==> run.is_embedded(#[trigger] deleted(run.actions)[b][j]),
{
    assert forall|i: int|
        0 <= i < run.actions.len() && (
        #[trigger] run.actions[i]) is ArchiveObject implies run.actions[i]->ArchiveObject_last_modified
        < run.cutoff by {
        assert(run.action_ok(i));
    }
    lemma_embedded_are_archived(run.actions, run.events);
    assert forall|k: int| 0 <= k < run.embedded.len() implies run.archives_older(
        #[trigger] run.embedded[k],
    ) by {
        let key = embedded_keys(run.actions, run.events)[k];
        assert(archives_key(run.actions, run.events.len() as int, key));
        let i = choose|i: int|
            0 <= i < run.events.len() && (#[trigger] run.actions[i]) is ArchiveObject
                && run.actions[i]->ArchiveObject_key == key;
        assert(run.action_ok(i));
    }
    assert forall|b: int, j: int|
        0 <= b < deleted(run.actions).len() && 0 <= j < deleted(
            run.actions,
        )[b].len() implies run.is_embedded(#[trigger] deleted(run.actions)[b][j]) by {
        let batcher = run.batcher.unwrap();
        assert(batcher.batch_ok(b));
        let k = batch_start(b, batcher.limit) + j;
        assert(deleted(run.actions)[b][j] == key_texts(run.embedded)[k]);
        assert(run.embedded[k]@ == key_texts(run.embedded)[k]);
    }
}

/// Every embedded key is the key of an answered action that archives an
/// object.
pub proof fn lemma_embedded_are_archived(actions: Seq<RunAction>, events: Seq<RunEvent>)
    ensures
        forall|k: int|
            0 <= k < embedded_keys(actions, events).len() ==> archives_key(
                actions,
                events.len() as int,
                #[trigger] embedded_keys(actions, events)[k],
            ),
    decreases events.len(),
{
    if events.len() > 0 {
        let before = events.drop_last();
        let last = events.len() - 1;
        lemma_embedded_are_archived(actions, before);
        assert forall|k: int| 0 <= k < embedded_keys(actions, events).len() implies archives_key(
            actions,
            events.len() as int,
            #[trigger] embedded_keys(actions, events)[k],
        ) by {
            if k < embedded_keys(actions, before).len() {
                let key = embedded_keys(actions, before)[k];
                assert(archives_key(actions, before.len() as int, key));
                let i = choose|i: int|
                    0 <= i < before.len() && (#[trigger] actions[i]) is ArchiveObject
                        && actions[i]->ArchiveObject_key == key;
                assert(actions[i] is ArchiveObject);
            } else {
                assert(actions[last] is ArchiveObject);
            }
        }
    }
}

/// The keys handed to deletion are exactly the keys of the objects that were
/// written whole into the archive, no more and no fewer: when a run is done,
/// its batches, one after the other, are the embedded keys in their order,
/// cut at every multiple of the batch limit, and as many batches as that
/// takes. So a key is deleted if and only if it is embedded.
pub proof fn lemma_deleted_exactly_embedded(run: RunView)
    requires
        run.inv(),
        run.phase == RunPhase::Done,
    ensures
        run.embedded == embedded_keys(run.actions, run.events),
        deleted(run.actions).len() == batches_needed(run.embedded.len() as int, BATCH_LIMIT as int),
        forall|b: int|
            0 <= b < deleted(run.actions).len() ==> #[trigger] deleted(run.actions)[b]
                == key_texts(run.embedded).subrange(
                batch_start(b, BATCH_LIMIT as int),
                batch_end(b, BATCH_LIMIT as int, run.embedded.len() as int),
            ),
        forall|k: int|
            0 <= k < run.embedded.len() ==> run.is_deleted((#[trigger] run.embedded[k])@),
        forall|text: Seq<char>| run.is_deleted(text) <==> run.is_embedded(text),
{
    let batcher = run.batcher.unwrap();
    let batches = deleted(run.actions);
    let count = run.embedded.len() as int;
    lemma_every_batch_is_attempted(batcher);
    lemma_only_older_objects(run);
    assert forall|k: int| 0 <= k < count implies run.is_deleted((#[trigger] run.embedded[k])@) by {
        let limit = BATCH_LIMIT as int;
        let b = k / limit;
        let j = k % limit;
        assert(batch_start(b, limit) == b * limit);
        assert(0 <= b < batches.len());
        assert(batches[b] == key_texts(run.embedded).subrange(
            batch_start(b, limit),
            batch_end(b, limit, count),
        ));
        assert(batches[b][j] == key_texts(run.embedded)[k]);
    }
    assert forall|text: Seq<char>| run.is_deleted(text) <==> run.is_embedded(text) by {
        if run.is_deleted(text) {
            let (b, j) = choose|b: int, j: int|
                0 <= b < batches.len() && 0 <= j < batches[b].len() && #[trigger] batches[b][j]
                    == text;
            assert(run.is_embedded(batches[b][j]));
        }
        if run.is_embedded(text) {
            let k = choose|k: int| 0 <= k < count && (#[trigger] run.embedded[k])@ == text;
            assert(run.is_deleted(run.embedded[k]@));
        }
    }
}

/// Nothing is deleted unless the archive is committed.
///
/// Every deletion comes after the action that asked to finish the archive,
/// and that action was answered with success. And if the finishing was
/// answered with anything else, the run has asked for no deletion, and never
/// will.
pub proof fn lemma_no_deletion_without_commit(run: RunView)
    requires
        run.inv(),
    ensures
        forall|i: int|
            0 <= i < run.actions.len() && (#[trigger] run.actions[i]) is DeleteBatch ==> {
                &&& run.finish matches Some(f)
                &&& f < i
                &&& run.actions[f] is FinishArchive
                &&& run.events[f] is ArchiveFinished
            },
        (exists|f: int|
            0 <= f < run.events.len() && (#[trigger] run.actions[f]) is FinishArchive && !(
            run.events[f] is ArchiveFinished)) ==> forall|i: int|
            0 <= i < run.actions.len() ==> !((#[trigger] run.actions[i]) is DeleteBatch),
        !run.committed() ==> deleted(run.actions).len() == 0,
{
    assert forall|i: int|
        0 <= i < run.actions.len() && (#[trigger] run.actions[i]) is DeleteBatch implies {
        &&& run.finish matches Some(f)
        &&& f < i
        &&& run.actions[f] is FinishArchive
        &&& run.events[f] is ArchiveFinished
    } by {
        assert(run.action_ok(i));
    }
    if exists|f: int|
        0 <= f < run.events.len() && (#[trigger] run.actions[f]) is FinishArchive && !(
        run.events[f] is ArchiveFinished) {
        let f = choose|f: int|
            0 <= f < run.events.len() && (#[trigger] run.actions[f]) is FinishArchive && !(
            run.events[f] is ArchiveFinished);
        assert(run.action_ok(f));
        assert forall|i: int| 0 <= i < run.actions.len() implies !((
        #[trigger] run.actions[i]) is DeleteBatch) by {
            if run.actions[i] is DeleteBatch {
                assert(run.action_ok(i));
            }
        }
    }
}

/// The archive is finished only after the whole listing: once the run has
/// asked to finish the archive, the source has no page left, and the objects
/// that the run asked to archive are the eligible objects of all the pages,
/// in the order of the listing.
pub proof fn lemma_whole_listing_before_finish(run: RunView)
    requires
        run.inv(),
        run.finish is Some,
    ensures
        run.enumerator.state is Done,
        archived(run.actions) == eligible(run.enumerator.listed, run.cutoff),
{
    assert(archived(run.actions) + run.pending == archived(run.actions));
}

/// A run that is over stays as it is, whatever is reported to it, and asks
/// for nothing more: a failed run never deletes.
pub proof fn lemma_over_is_final(run: RunView, event: RunEvent, post: RunView, action: RunAction)
    requires
        run.inv(),
        run.is_over(),
        run.step(event, post, action),
    ensures
        post == run,
        action is Finished || action is Failed,
        run.phase == RunPhase::Failed ==> action is Failed,
{
}


impl RunError {
    /// A copy of this error.
    pub fn duplicate(&self) -> (copy: RunError)
        ensures
            copy == *self,
    {
        match self {
            RunError::Listing(e) => RunError::Listing(e.duplicate()),
            RunError::Encoding(e) => RunError::Encoding(e.duplicate()),
            RunError::Upload(m) => RunError::Upload(m.clone()),
            RunError::UnexpectedEvent => RunError::UnexpectedEvent,
        }
    }
}

/// What a run works on: where the objects come from, where the archive goes,
/// which objects are old enough, and how large the parts of the upload are.
#[derive(Debug, PartialEq, Eq)]
pub struct ArchivePlan {
    pub source_bucket: String,
    pub source_prefix: Option<String>,
    pub destination_bucket: String,
    pub destination_key: String,
    pub cutoff: i64,
    pub threshold: usize,
}

/// A plan as texts and numbers.
pub struct PlanView {
    pub source_bucket: Seq<char>,
    pub source_prefix: Option<Seq<char>>,
    pub destination_bucket: Seq<char>,
    pub destination_key: Seq<char>,
    pub cutoff: i64,
    pub threshold: usize,
}

impl View for ArchivePlan {
    type V = PlanView;

    open spec fn view(&self) -> PlanView {
        PlanView {
            source_bucket: self.source_bucket@,
            source_prefix: match self.source_prefix {
                Some(p) => Some(p@),
                None => None,
            },
            destination_bucket: self.destination_bucket@,
            destination_key: self.destination_key@,
            cutoff: self.cutoff,
            threshold: self.threshold,
        }
    }
}

/// The plan for archiving the objects at `src` into `dst`, or why there is
/// none.
///
/// Both locations must parse and the part size must not be 0. The cutoff is
/// the one given, else `now` less the safety margin. Under a destination
/// prefix the archive is named by the cutoff's stamp, so the cutoff must have
/// one; without a prefix the archive has the plain name.
pub open spec fn planned(
    src: Seq<char>,
    dst: Seq<char>,
    cutoff: Option<i64>,
    now: i64,
    buffer_size: usize,
) -> Result<PlanView, ArchiveError> {
    let effective = effective_cutoff_of(cutoff, now);
    match (parsed_url(src), parsed_url(dst)) {
        (None, _) => Err(ArchiveError::InvalidSourceUrl),
        (Some(_), None) => Err(ArchiveError::InvalidDestinationUrl),
        (Some((source_bucket, source_prefix)), Some((destination_bucket, destination_prefix))) => {
            if buffer_size == 0 {
                Err(ArchiveError::ZeroBufferSize)
            } else if destination_prefix is Some && utc_formatted(effective, stamp_pattern())
                is None {
                Err(ArchiveError::CutoffOutOfRange)
            } else {
                Ok(
                    PlanView {
                        source_bucket,
                        source_prefix,
                        destination_bucket,
                        destination_key: match destination_prefix {
                            None => destination_key_text(None, Seq::empty()),
                            Some(prefix) => destination_key_text(
                                Some(prefix),
                                utc_formatted(effective, stamp_pattern()).unwrap(),
                            ),
                        },
                        cutoff: effective,
                        threshold: buffer_size,
                    },
                )
            }
        },
    }
}

/// Plans the archiving of the objects at `src` that were last modified
/// before the cutoff, into an archive at `dst`, uploaded in parts of
/// `buffer_size` bytes. `now` is the present instant, in seconds since the
/// epoch, and `cutoff`, where given, the cutoff in the same measure.
pub fn archive(src: &str, dst: &str, cutoff: Option<i64>, now: i64, buffer_size: usize) -> (result:
    Result<ArchivePlan, ArchiveError>)
    ensures
        match result {
            Ok(plan) => planned(src@, dst@, cutoff, now, buffer_size) == Ok::<
                PlanView,
                ArchiveError,
            >(plan@),
            Err(error) => planned(src@, dst@, cutoff, now, buffer_size) == Err::<
                PlanView,
                ArchiveError,
            >(error),
        },
{
    let (source_bucket, source_prefix) = match parse_url(src) {
        Some(location) => location,
        None => {
            return Err(ArchiveError::InvalidSourceUrl);
        },
    };
    let (destination_bucket, destination_prefix) = match parse_url(dst) {
        Some(location) => location,
        None => {
            return Err(ArchiveError::InvalidDestinationUrl);
        },
    };
    if buffer_size == 0 {
        return Err(ArchiveError::ZeroBufferSize);
    }
    let effective = effective_cutoff(cutoff, now);
    let key = if destination_prefix.is_some() {
        match cutoff_stamp(effective) {
            Some(stamp) => destination_key(&destination_prefix, stamp.as_str()),
            None => {
                return Err(ArchiveError::CutoffOutOfRange);
            },
        }
    } else {
        destination_key(&destination_prefix, "")
    };
    Ok(
        ArchivePlan {
            source_bucket,
            source_prefix,
            destination_bucket,
            destination_key: key,
            cutoff: effective,
            threshold: buffer_size,
        },
    )
}

impl ArchivePlan {
    /// The sink through which the archive of this plan is uploaded: a new
    /// sink for the plan's destination, with the plan's part size.
    pub fn sink(&self) -> (sink: MultipartUploadSink)
        requires
            self.threshold > 0,
        ensures
            sink.wf(),
            sink.spec_bucket() == self.destination_bucket@,
            sink.spec_key() == self.destination_key@,
            sink@ == (SinkView {
                threshold: self.threshold as int,
                state: SinkState::Idle,
                buffer: Seq::empty(),
                upload_id: None,
                parts: Seq::empty(),
                accepted: Seq::empty(),
                requests: Seq::empty(),
                responses: Seq::empty(),
            }),
    {
        MultipartUploadSink::new(
            self.destination_bucket.clone(),
            self.destination_key.clone(),
            self.threshold,
        )
    }
}

/// One run of the archive.
pub struct ArchiveRun {
    source_bucket: String,
    cutoff: i64,
    phase: RunPhase,
    error: Option<RunError>,
    enumerator: Enumerator,
    page: Vec<ObjectDescriptor>,
    cursor: usize,
    embedded: Vec<String>,
    batcher: Option<DeletionBatcher>,
    record: Ghost<RunView>,
}

impl View for ArchiveRun {
    type V = RunView;

    closed spec fn view(&self) -> RunView {
        self.record@
    }
}

impl ArchiveRun {
    /// The fields hold what the view records, and the view is in order.
    pub closed spec fn wf(&self) -> bool {
        &&& self@.inv()
        &&& self.fields_match()
    }

    /// The fields hold what the view records.
    spec fn fields_match(&self) -> bool {
        &&& self@.source_bucket == self.source_bucket
        &&& self@.cutoff == self.cutoff
        &&& self@.phase == self.phase
        &&& self@.error == self.error
        &&& self@.enumerator == self.enumerator@
        &&& self.cursor <= self.page@.len()
        &&& self@.pending == self.page@.subrange(self.cursor as int, self.page@.len() as int)
        &&& self@.phase == RunPhase::Archiving ==> self.cursor >= 1 && self@.current == Some(
            self.page@[self.cursor - 1],
        )
        &&& match self@.batcher {
            None => self.batcher is None && self@.embedded == self.embedded@,
            Some(view) => self.batcher matches Some(batcher) && batcher@ == view && batcher.wf(),
        }
    }

    /// Ends the run in failure.
    fn fail(&mut self, error: RunError) -> (action: RunAction)
        requires
            old(self)@.answered(),
            old(self).fields_match(),
        ensures
            final(self).wf(),
            old(self)@.failed(error, final(self)@, action),
    {
        let ghost mid = self@;
        self.phase = RunPhase::Failed;
        self.error = Some(error.duplicate());
        let action = RunAction::Failed(error);
        self.record = Ghost(
            RunView {
                phase: RunPhase::Failed,
                error: Some(error),
                actions: mid.actions.push(action),
                ..mid
            },
        );
        proof {
            lemma_failed_keeps_inv(mid, error, self@, action);
        }
        action
    }

    /// Goes on with the archive: the next pending object, else the next
    /// page, else the finishing.
    fn proceed(&mut self) -> (action: RunAction)
        requires
            old(self)@.answered(),
            old(self).fields_match(),
            old(self)@.finish is None,
            !(old(self)@.enumerator.state is Failed),
        ensures
            final(self).wf(),
            old(self)@.proceeded(final(self)@, action),
    {
        let ghost mid = self@;
        if self.cursor < self.page.len() {
            let object = &self.page[self.cursor];
            let header = match entry_header(object) {
                Ok(header) => header,
                Err(error) => {
                    return self.fail(RunError::Encoding(error));
                },
            };
            let action = RunAction::ArchiveObject {
                key: object.key.clone(),
                size: object.size,
                last_modified: object.last_modified,
                header,
            };
            self.cursor = self.cursor + 1;
            self.phase = RunPhase::Archiving;
            self.record = Ghost(
                RunView {
                    phase: RunPhase::Archiving,
                    pending: mid.pending.drop_first(),
                    current: Some(mid.pending[0]),
                    actions: mid.actions.push(action),
                    ..mid
                },
            );
            proof {
                assert(self@.pending == self.page@.subrange(
                    self.cursor as int,
                    self.page@.len() as int,
                ));
                lemma_proceeded_keeps_inv(mid, self@, action);
            }
            return action;
        }
        match self.enumerator.next_request() {
            Some(request) => {
                let action = RunAction::ListPage(request);
                self.phase = RunPhase::Listing;
                self.record = Ghost(
                    RunView {
                        phase: RunPhase::Listing,
                        current: None,
                        actions: mid.actions.push(action),
                        ..mid
                    },
                );
                proof {
                    lemma_proceeded_keeps_inv(mid, self@, action);
                }
                action
            },
            None => {
                let action = RunAction::FinishArchive;
                self.phase = RunPhase::Finishing;
                self.record = Ghost(
                    RunView {
                        phase: RunPhase::Finishing,
                        current: None,
                        finish: Some(mid.actions.len() as int),
                        actions: mid.actions.push(action),
                        ..mid
                    },
                );
                proof {
                    lemma_proceeded_keeps_inv(mid, self@, action);
                }
                action
            },
        }
    }

    /// Goes on with the deletion: the next batch, or the end of the run.
    fn continue_deletion(&mut self) -> (action: RunAction)
        requires
            old(self)@.answered(),
            old(self).fields_match(),
            old(self)@.batcher matches Some(b) && !b.awaiting(),
        ensures
            final(self).wf(),
            old(self)@.deletion_continued(final(self)@, action),
    {
        let ghost mid = self@;
        let mut batcher = self.batcher.take().unwrap();
        let action = match batcher.next_batch() {
            Some(keys) => {
                self.phase = RunPhase::Deleting;
                RunAction::DeleteBatch { bucket: self.source_bucket.clone(), keys }
            },
            None => {
                self.phase = RunPhase::Done;
                RunAction::Finished(batcher.report())
            },
        };
        self.record = Ghost(
            RunView {
                phase: self.phase,
                batcher: Some(batcher@),
                actions: mid.actions.push(action),
                ..mid
            },
        );
        self.batcher = Some(batcher);
        proof {
            lemma_deletion_continued_keeps_inv(mid, self@, action);
        }
        action
    }

    /// Takes what came of the page that was asked for.
    fn page_answered(&mut self, event: RunEvent) -> (action: RunAction)
        requires
            old(self).wf(),
            old(self)@.phase == RunPhase::Listing,
        ensures
            final(self).wf(),
            old(self)@.step(event, final(self)@, action),
    {
        let ghost pre = self@;
        self.record = Ghost(pre.took(event));
        proof {
            lemma_took_keeps_record(pre, event);
        }
        match event {
            RunEvent::PageListed { entries, next_token } => {
                let ghost listed = RunView {
                    enumerator: pre.enumerator.after_page(entries@, next_token),
                    ..pre.took(event)
                };
                let outcome = self.enumerator.page_listed(entries, next_token);
                match outcome {
                    Err(error) => {
                        self.record = Ghost(listed);
                        proof {
                            assert forall|i: int|
                                0 <= i < listed.actions.len() implies listed.action_ok(i) by {
                                assert(pre.took(event).action_ok(i));
                            }
                        }
                        self.fail(RunError::Listing(error))
                    },
                    Ok(objects) => {
                        let ghost mid = RunView { pending: objects@, ..listed };
                        self.page = objects;
                        self.cursor = 0;
                        self.record = Ghost(mid);
                        proof {
                            lemma_eligible_of_pages(pre.enumerator.listed, entries@, pre.cutoff);
                            assert(archived(pre.actions) + pre.pending == archived(pre.actions));
                            assert forall|i: int|
                                0 <= i < mid.actions.len() implies mid.action_ok(i) by {
                                assert(pre.took(event).action_ok(i));
                            }
                            assert(self.page@.subrange(0, self.page@.len() as int) == self.page@);
                        }
                        self.proceed()
                    },
                }
            },
            RunEvent::ListFailed { message } => {
                let error = self.enumerator.page_failed(message);
                let ghost mid = RunView { enumerator: self.enumerator@, ..pre.took(event) };
                self.record = Ghost(mid);
                proof {
                    assert forall|i: int| 0 <= i < mid.actions.len() implies mid.action_ok(i) by {
                        assert(pre.took(event).action_ok(i));
                    }
                }
                self.fail(RunError::Listing(error))
            },
            _ => self.fail(RunError::UnexpectedEvent),
        }
    }

    /// Takes what came of the object that was to be archived.
    fn entry_answered(&mut self, event: RunEvent) -> (action: RunAction)
        requires
            old(self).wf(),
            old(self)@.phase == RunPhase::Archiving,
        ensures
            final(self).wf(),
            old(self)@.step(event, final(self)@, action),
    {
        let ghost pre = self@;
        self.record = Ghost(pre.took(event));
        proof {
            lemma_took_keeps_record(pre, event);
        }
        match event {
            RunEvent::EntryWritten { bytes } => {
                let object = &self.page[self.cursor - 1];
                match check_entry(object.size, bytes) {
                    Ok(()) => {
                        let key = object.key.clone();
                        self.embedded.push(key);
                        let ghost mid = RunView {
                            embedded: pre.embedded.push(key),
                            ..pre.took(event)
                        };
                        self.record = Ghost(mid);
                        proof {
                            assert(self.embedded@.len() == self.embedded.len());
                            assert(written_whole(pre.actions.last(), event));
                            assert forall|i: int|
                                0 <= i < mid.actions.len() implies mid.action_ok(i) by {
                                assert(pre.took(event).action_ok(i));
                            }
                            assert(!mid.committed());
                        }
                        self.proceed()
                    },
                    Err(error) => self.fail(RunError::Encoding(error)),
                }
            },
            RunEvent::FetchFailed { message } => self.proceed(),
            RunEvent::EntryFailed { message } => self.fail(
                RunError::Encoding(EncodingError::Failed(message)),
            ),
            _ => self.fail(RunError::UnexpectedEvent),
        }
    }

    /// Takes what came of the finishing of the archive.
    fn finish_answered(&mut self, event: RunEvent) -> (action: RunAction)
        requires
            old(self).wf(),
            old(self)@.phase == RunPhase::Finishing,
        ensures
            final(self).wf(),
            old(self)@.step(event, final(self)@, action),
    {
        let ghost pre = self@;
        self.record = Ghost(pre.took(event));
        proof {
            lemma_took_keeps_record(pre, event);
        }
        match event {
            RunEvent::ArchiveFinished => {
                let mut keys: Vec<String> = Vec::new();
                std::mem::swap(&mut keys, &mut self.embedded);
                let batcher = delete_keys(keys);
                let ghost mid = RunView { batcher: Some(batcher@), ..pre.took(event) };
                self.batcher = Some(batcher);
                self.record = Ghost(mid);
                proof {
                    assert(mid.committed());
                    assert(deleted(pre.actions) =~= Seq::empty());
                    assert forall|i: int| 0 <= i < mid.actions.len() implies mid.action_ok(i) by {
                        assert(pre.took(event).action_ok(i));
                    }
                }
                self.continue_deletion()
            },
            RunEvent::FinishFailed { message } => self.fail(RunError::Upload(message)),
            _ => self.fail(RunError::UnexpectedEvent),
        }
    }

    /// Takes what came of the batch that was to be deleted.
    fn batch_answered(&mut self, event: RunEvent) -> (action: RunAction)
        requires
            old(self).wf(),
            old(self)@.phase == RunPhase::Deleting,
        ensures
            final(self).wf(),
            old(self)@.step(event, final(self)@, action),
    {
        let ghost pre = self@;
        self.record = Ghost(pre.took(event));
        proof {
            lemma_took_keeps_record(pre, event);
        }
        match event {
            RunEvent::BatchDone(outcome) => {
                let mut batcher = self.batcher.take().unwrap();
                batcher.record(outcome);
                let ghost mid = RunView { batcher: Some(batcher@), ..pre.took(event) };
                self.batcher = Some(batcher);
                self.record = Ghost(mid);
                proof {
                    lemma_outcome_keeps_going(pre.batcher.unwrap(), outcome);
                    assert forall|i: int| 0 <= i < mid.actions.len() implies mid.action_ok(i) by {
                        assert(pre.took(event).action_ok(i));
                    }
                }
                self.continue_deletion()
            },
            _ => self.fail(RunError::UnexpectedEvent),
        }
    }

    /// Takes what the caller reports of the action that it was asked for, and
    /// says what to do next.
    ///
    /// `Finished` and `Failed` end the run: whatever is reported after them,
    /// the run repeats them and changes nothing.
    pub fn advance(&mut self, event: RunEvent) -> (action: RunAction)
        requires
            old(self).wf(),
        ensures
            final(self).wf(),
            old(self)@.step(event, final(self)@, action),
    {
        match self.phase {
            RunPhase::Listing => self.page_answered(event),
            RunPhase::Archiving => self.entry_answered(event),
            RunPhase::Finishing => self.finish_answered(event),
            RunPhase::Deleting => self.batch_answered(event),
            RunPhase::Done => RunAction::Finished(self.batcher.as_ref().unwrap().report()),
            RunPhase::Failed => RunAction::Failed(self.error.as_ref().unwrap().duplicate()),
        }
    }

    /// How far the run has come.
    pub fn phase(&self) -> (phase: RunPhase)
        requires
            self.wf(),
        ensures
            phase == self@.phase,
    {
        self.phase
    }

    /// How many objects are whole in the archive so far.
    pub fn embedded_count(&self) -> (count: usize)
        requires
            self.wf(),
        ensures
            count == self@.embedded.len(),
    {
        match &self.batcher {
            Some(batcher) => batcher.key_count(),
            None => self.embedded.len(),
        }
    }
}

/// Taking an event keeps every action in its place. It keeps the whole
/// record in order where the event neither commits the archive nor embeds a
/// key; and it embeds the key of the newest action where the event says that
/// the action's object was written whole.
proof fn lemma_took_keeps_record(pre: RunView, event: RunEvent)
    requires
        pre.inv(),
        !pre.is_over(),
    ensures
        pre.took(event).actions.len() == pre.took(event).events.len(),
        forall|i: int| 0 <= i < pre.actions.len() ==> pre.took(event).action_ok(i),
        embedded_keys(pre.actions, pre.events.push(event)) == (if written_whole(
            pre.actions.last(),
            event,
        ) {
            pre.embedded.push(pre.actions.last()->ArchiveObject_key)
        } else {
            pre.embedded
        }),
        !(pre.phase == RunPhase::Finishing && event is ArchiveFinished) && !written_whole(
            pre.actions.last(),
            event,
        ) ==> pre.took(event).recorded(),
{
    let took = pre.took(event);
    assert(took.events.drop_last() == pre.events);
    assert forall|i: int| 0 <= i < took.actions.len() implies took.action_ok(i) by {
        assert(pre.action_ok(i));
    }
}

/// Starts the run of a plan: the run, and its first action, which asks for
/// the first page of the source.
pub fn compress(plan: &ArchivePlan) -> (started: (ArchiveRun, RunAction))
    ensures
        started.0.wf(),
        started.1 == RunAction::ListPage(
            ListRequest {
                bucket: plan.source_bucket,
                prefix: plan.source_prefix,
                continuation_token: None,
            },
        ),
        started.0@ == (RunView {
            source_bucket: plan.source_bucket,
            cutoff: plan.cutoff,
            phase: RunPhase::Listing,
            error: None,
            enumerator: EnumeratorView {
                bucket: plan.source_bucket,
                prefix: plan.source_prefix,
                cutoff: plan.cutoff,
                state: EnumeratorState::Start,
                listed: Seq::empty(),
            },
            pending: Seq::empty(),
            current: None,
            embedded: Seq::empty(),
            finish: None,
            batcher: None,
            actions: seq![started.1],
            events: Seq::empty(),
        }),
{
    let enumerator = Enumerator::new(
        plan.source_bucket.clone(),
        duplicate_optional(&plan.source_prefix),
        plan.cutoff,
    );
    let action = RunAction::ListPage(enumerator.next_request().unwrap());
    let record = Ghost(
        RunView {
            source_bucket: plan.source_bucket,
            cutoff: plan.cutoff,
            phase: RunPhase::Listing,
            error: None,
            enumerator: enumerator@,
            pending: Seq::empty(),
            current: None,
            embedded: Seq::empty(),
            finish: None,
            batcher: None,
            actions: seq![action],
            events: Seq::empty(),
        },
    );
    let run = ArchiveRun {
        source_bucket: plan.source_bucket.clone(),
        cutoff: plan.cutoff,
        phase: RunPhase::Listing,
        error: None,
        enumerator,
        page: Vec::new(),
        cursor: 0,
        embedded: Vec::new(),
        batcher: None,
        record,
    };
    proof {
        let view = run@;
        assert(view.actions.drop_last() =~= Seq::empty());
        assert(archived(view.actions.drop_last()) =~= Seq::empty());
        assert(archived(view.actions) =~= Seq::empty());
        assert(deleted(view.actions.drop_last()) =~= Seq::empty());
        assert(view.pending =~= run.page@.subrange(0, 0));
        assert(view.action_ok(0));
    }
    (run, action)
}

} // verus!
