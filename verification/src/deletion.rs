//! The key deletion batcher: the keys to delete, cut into batches of at most
//! the store's bulk-delete limit, and the account of what the store did with
//! each batch.
//!
//! Deletion is best effort: what happens to one batch never keeps the next
//! from being attempted.

use aws_sdk_s3::types::ObjectIdentifier;
use vstd::arithmetic::div_mod::lemma_fundamental_div_mod_converse;
use vstd::prelude::*;

verus! {

/// The most keys that the store deletes in one call.
pub const BATCH_LIMIT: usize = 1000;

/// What came of one batch.
#[derive(Debug, PartialEq, Eq)]
pub enum BatchOutcome {
    /// The store answered: it deleted `deleted` keys and failed on `failed`.
    Deleted { deleted: usize, failed: usize },
    /// The batch did not reach the store, or no answer came back.
    TransportFailed(String),
}

/// The account of a deletion.
#[derive(Clone, Copy, Debug, PartialEq, Eq, Structural)]
pub struct DeletionReport {
    /// Batches handed out.
    pub batches_sent: usize,
    /// Batches that did not reach the store.
    pub batches_failed: usize,
    /// Batches left out because none of their keys could be encoded.
    pub batches_skipped: usize,
    /// Keys that the store deleted.
    pub keys_deleted: usize,
    /// Keys that the store failed to delete.
    pub keys_failed: usize,
    /// Keys left out of their batch because they could not be encoded.
    pub keys_dropped: usize,
}

/// The sum of two counts, or the largest count where the sum is beyond it.
pub open spec fn capped_sum(a: usize, b: usize) -> usize {
    if a + b > usize::MAX {
        usize::MAX
    } else {
        (a + b) as usize
    }
}

/// Adds two counts, stopping at the largest count.
pub fn add_capped(a: usize, b: usize) -> (sum: usize)
    ensures
        sum == capped_sum(a, b),
{
    if a > usize::MAX - b {
        usize::MAX
    } else {
        a + b
    }
}

impl DeletionReport {
    /// The report of a deletion in which nothing has happened yet.
    pub open spec fn empty() -> DeletionReport {
        DeletionReport {
            batches_sent: 0,
            batches_failed: 0,
            batches_skipped: 0,
            keys_deleted: 0,
            keys_failed: 0,
            keys_dropped: 0,
        }
    }

    /// This report with the outcome of one more batch.
    pub open spec fn with_outcome(self, outcome: BatchOutcome) -> DeletionReport {
        match outcome {
            BatchOutcome::Deleted { deleted, failed } => DeletionReport {
                keys_deleted: capped_sum(self.keys_deleted, deleted),
                keys_failed: capped_sum(self.keys_failed, failed),
                ..self
            },
            BatchOutcome::TransportFailed(_) => DeletionReport {
                batches_failed: capped_sum(self.batches_failed, 1),
                ..self
            },
        }
    }
}

/// The texts of a sequence of keys.
pub open spec fn key_texts(keys: Seq<String>) -> Seq<Seq<char>> {
    keys.map_values(|key: String| key@)
}

/// The keys that could be encoded, in their order.
pub open spec fn encoded_keys(encoded: Seq<Option<String>>) -> Seq<String>
    decreases encoded.len(),
{
    if encoded.len() == 0 {
        Seq::empty()
    } else if encoded.last() is Some {
        encoded_keys(encoded.drop_last()).push(encoded.last().unwrap())
    } else {
        encoded_keys(encoded.drop_last())
    }
}

/// Where every key could be encoded, every key is kept.
pub proof fn lemma_all_encoded(encoded: Seq<Option<String>>)
    requires
        forall|i: int| 0 <= i < encoded.len() ==> (#[trigger] encoded[i]) is Some,
    ensures
        encoded_keys(encoded).len() == encoded.len(),
        forall|i: int|
            0 <= i < encoded.len() ==> #[trigger] encoded_keys(encoded)[i] == encoded[i].unwrap(),
    decreases encoded.len(),
{
    if encoded.len() > 0 {
        lemma_all_encoded(encoded.drop_last());
    }
}

/// Encodes a key for the store's delete request, with `aws_sdk_s3`:
/// `ObjectIdentifier::builder()`, `key` and `build`, and hands back the key
/// that the identifier holds. Claimed: the build succeeds, as it fails only
/// where no key was set, and the identifier's key is the key given.
#[verifier::external_body]
fn request_key(key: &str) -> (encoded: Option<String>)
    ensures
        encoded is Some,
        encoded.unwrap()@ == key@,
{
    match ObjectIdentifier::builder().key(key).build() {
        Ok(identifier) => Some(identifier.key().to_string()),
        Err(_) => None,
    }
}

/// The request for one batch: the keys that could be encoded, in their
/// order. A key that could not be encoded is left out. Where none is left,
/// there is no request.
pub fn batch_request(encoded: Vec<Option<String>>) -> (request: Option<Vec<String>>)
    ensures
        match request {
            Some(keys) => keys@ == encoded_keys(encoded@) && keys@.len() > 0,
            None => encoded_keys(encoded@).len() == 0,
        },
{
    let mut keys: Vec<String> = Vec::new();
    for item in it: encoded
        invariant
            keys@ == encoded_keys(encoded@.take(it.index() as int)),
    {
        proof {
            let seen = encoded@.take(it.index() + 1);
            assert(seen.drop_last() == encoded@.take(it.index() as int));
            assert(seen.last() == item);
        }
        if let Some(key) = item {
            keys.push(key);
        }
    }
    proof {
        assert(encoded@.take(encoded@.len() as int) == encoded@);
    }
    if keys.len() == 0 {
        None
    } else {
        Some(keys)
    }
}

/// The number of batches that `count` keys take.
pub open spec fn batches_needed(count: int, limit: int) -> int {
    if count % limit == 0 {
        count / limit
    } else {
        count / limit + 1
    }
}

/// Where the batch with this index starts among the keys.
pub open spec fn batch_start(index: int, limit: int) -> int {
    index * limit
}

/// Where the batch with this index ends among `count` keys.
pub open spec fn batch_end(index: int, limit: int, count: int) -> int {
    if batch_start(index, limit) + limit <= count {
        batch_start(index, limit) + limit
    } else {
        count
    }
}

/// A batcher as the contracts see it.
pub struct BatcherView {
    /// The keys to delete.
    pub keys: Seq<String>,
    /// The most keys in a batch.
    pub limit: int,
    /// How many of the keys have been dealt with.
    pub position: int,
    /// The batches handed out, as the texts of their keys, oldest first.
    pub sent: Seq<Seq<Seq<char>>>,
    /// What came of the batches, oldest first: the outcome at an index
    /// belongs to the batch at that index.
    pub outcomes: Seq<BatchOutcome>,
    pub report: DeletionReport,
}

impl BatcherView {
    /// A batch was handed out and its outcome is not yet recorded.
    pub open spec fn awaiting(self) -> bool {
        self.outcomes.len() < self.sent.len()
    }

    /// Every key has been dealt with, and every outcome recorded.
    pub open spec fn finished(self) -> bool {
        self.position == self.keys.len() && !self.awaiting()
    }

    /// The batch handed out at this index holds the keys at its place, of
    /// which there is one at least.
    pub open spec fn batch_ok(self, index: int) -> bool {
        let count = self.keys.len() as int;
        &&& batch_start(index, self.limit) < count
        &&& self.sent[index] == key_texts(self.keys).subrange(
            batch_start(index, self.limit),
            batch_end(index, self.limit, count),
        )
    }

    /// The batches handed out are the keys up to the position, cut at every
    /// multiple of the limit, and no key was left out.
    pub open spec fn inv(self) -> bool {
        let count = self.keys.len() as int;
        let n = self.sent.len() as int;
        &&& self.limit > 0
        &&& 0 <= self.position <= count <= usize::MAX
        &&& self.outcomes.len() <= n <= self.outcomes.len() + 1
        &&& n == 0 ==> self.position == 0
        &&& n > 0 ==> self.position == batch_end(n - 1, self.limit, count)
        &&& forall|i: int| 0 <= i < n ==> self.batch_ok(i)
        &&& self.report.batches_sent == n
        &&& self.report.batches_skipped == 0
        &&& self.report.keys_dropped == 0
    }

    /// `post` is this batcher after it was asked for the next batch, and
    /// `request` what it handed out: the next keys, up to the limit, or
    /// nothing when no key is left. While a batch awaits its outcome nothing
    /// is handed out.
    pub open spec fn next_step(self, post: BatcherView, request: Option<Vec<String>>) -> bool {
        let count = self.keys.len() as int;
        if self.awaiting() || self.position == count {
            post == self && request is None
        } else {
            let end = if self.position + self.limit <= count {
                self.position + self.limit
            } else {
                count
            };
            &&& request matches Some(keys)
            &&& key_texts(keys@) == key_texts(self.keys).subrange(self.position, end)
            &&& post == (BatcherView {
                position: end,
                sent: self.sent.push(key_texts(keys@)),
                report: DeletionReport {
                    batches_sent: (self.report.batches_sent + 1) as usize,
                    ..self.report
                },
                ..self
            })
        }
    }

    /// This batcher after the outcome of the batch that awaits it. An
    /// outcome that no batch awaits changes nothing.
    pub open spec fn after_outcome(self, outcome: BatchOutcome) -> BatcherView {
        if self.awaiting() {
            BatcherView {
                outcomes: self.outcomes.push(outcome),
                report: self.report.with_outcome(outcome),
                ..self
            }
        } else {
            self
        }
    }
}

/// An outcome, whatever it is, keeps the batcher in order and leaves the keys
/// not yet dealt with as they are: a batch that failed does not keep the next
/// from being handed out.
pub proof fn lemma_outcome_keeps_going(batcher: BatcherView, outcome: BatchOutcome)
    requires
        batcher.inv(),
    ensures
        batcher.after_outcome(outcome).inv(),
        batcher.after_outcome(outcome).position == batcher.position,
        batcher.after_outcome(outcome).keys == batcher.keys,
        batcher.after_outcome(outcome).sent == batcher.sent,
        !batcher.after_outcome(outcome).awaiting(),
{
    let post = batcher.after_outcome(outcome);
    assert forall|i: int| 0 <= i < post.sent.len() implies post.batch_ok(i) by {
        assert(batcher.batch_ok(i));
    }
}

/// Every key is attempted, whatever came of the batches before it: when the
/// batcher has finished, it has handed out as many batches as the keys take,
/// `ceil(count / limit)`, each made of the keys at its place.
pub proof fn lemma_every_batch_is_attempted(batcher: BatcherView)
    requires
        batcher.inv(),
        batcher.finished(),
    ensures
        batcher.sent.len() == batches_needed(batcher.keys.len() as int, batcher.limit),
        batcher.outcomes.len() == batcher.sent.len(),
        forall|i: int|
            0 <= i < batcher.sent.len() ==> #[trigger] batcher.sent[i] == key_texts(
                batcher.keys,
            ).subrange(
                batch_start(i, batcher.limit),
                batch_end(i, batcher.limit, batcher.keys.len() as int),
            ),
{
    let count = batcher.keys.len() as int;
    let limit = batcher.limit;
    let n = batcher.sent.len() as int;
    if n == 0 {
        assert(count == 0);
        assert(0int % limit == 0 && 0int / limit == 0) by (nonlinear_arith)
            requires
                limit > 0,
        ;
    } else {
        assert forall|i: int| 0 <= i < n implies #[trigger] batcher.sent[i] == key_texts(
            batcher.keys,
        ).subrange(batch_start(i, limit), batch_end(i, limit, count)) by {
            assert(batcher.batch_ok(i));
        }
        let start = batch_start(n - 1, limit);
        assert(batcher.batch_ok(n - 1));
        assert(count == batch_end(n - 1, limit, count));
        if start + limit <= count {
            assert(count == n * limit) by (nonlinear_arith)
                requires
                    count == (n - 1) * limit + limit,
            ;
            lemma_fundamental_div_mod_converse(count, limit, n, 0);
        } else {
            lemma_fundamental_div_mod_converse(count, limit, n - 1, count - start);
        }
    }
}


/// While keys are left, the next batch starts at the position, and fewer
/// batches than keys have been handed out.
pub proof fn lemma_next_batch_starts_at_position(batcher: BatcherView)
    requires
        batcher.inv(),
        batcher.position < batcher.keys.len(),
    ensures
        batch_start(batcher.sent.len() as int, batcher.limit) == batcher.position,
        batcher.sent.len() <= batcher.position,
{
    let limit = batcher.limit;
    let n = batcher.sent.len() as int;
    if n == 0 {
        assert(batch_start(0, limit) == 0) by (nonlinear_arith);
    } else {
        assert(batcher.batch_ok(n - 1));
        assert(batch_start(n - 1, limit) + limit == batch_start(n, limit) && n <= batch_start(
            n,
            limit,
        )) by (nonlinear_arith)
            requires
                batch_start(n - 1, limit) == (n - 1) * limit,
                batch_start(n, limit) == n * limit,
                limit >= 1,
                n >= 1,
        ;
    }
}

/// Handing out a batch keeps the batcher in order.
pub proof fn lemma_next_keeps_inv(batcher: BatcherView, post: BatcherView, request: Option<Vec<String>>)
    requires
        batcher.inv(),
        batcher.next_step(post, request),
    ensures
        post.inv(),
{
    let count = batcher.keys.len() as int;
    let n = batcher.sent.len() as int;
    if !batcher.awaiting() && batcher.position < count {
        lemma_next_batch_starts_at_position(batcher);
        assert forall|i: int| 0 <= i < post.sent.len() implies post.batch_ok(i) by {
            if i < n {
                assert(batcher.batch_ok(i));
            }
        }
    }
}

/// The batcher of one deletion.
pub struct DeletionBatcher {
    keys: Vec<String>,
    limit: usize,
    position: usize,
    awaiting: bool,
    report: DeletionReport,
    record: Ghost<BatcherView>,
}

impl View for DeletionBatcher {
    type V = BatcherView;

    closed spec fn view(&self) -> BatcherView {
        self.record@
    }
}

impl DeletionBatcher {
    /// The fields hold what the view records, and the view is in order.
    pub closed spec fn wf(&self) -> bool {
        &&& self@.inv()
        &&& self@.keys == self.keys@
        &&& self@.limit == self.limit
        &&& self@.position == self.position
        &&& self@.awaiting() == self.awaiting
        &&& self@.report == self.report
    }

    /// A batcher for `keys`, with batches of at most `limit` keys.
    pub fn with_limit(keys: Vec<String>, limit: usize) -> (batcher: DeletionBatcher)
        requires
            limit > 0,
        ensures
            batcher.wf(),
            batcher@ == (BatcherView {
                keys: keys@,
                limit: limit as int,
                position: 0,
                sent: Seq::empty(),
                outcomes: Seq::empty(),
                report: DeletionReport::empty(),
            }),
    {
        let report = DeletionReport {
            batches_sent: 0,
            batches_failed: 0,
            batches_skipped: 0,
            keys_deleted: 0,
            keys_failed: 0,
            keys_dropped: 0,
        };
        let record = Ghost(
            BatcherView {
                keys: keys@,
                limit: limit as int,
                position: 0,
                sent: Seq::empty(),
                outcomes: Seq::empty(),
                report,
            },
        );
        let batcher = DeletionBatcher { keys, limit, position: 0, awaiting: false, report, record };
        assert(batcher.keys@.len() == batcher.keys.len());
        batcher
    }

    /// Encodes the keys from `from` up to `to` for a delete request.
    fn encode(&self, from: usize, to: usize) -> (encoded: Vec<Option<String>>)
        requires
            from <= to <= self.keys@.len(),
        ensures
            encoded@.len() == to - from,
            forall|i: int|
                0 <= i < encoded@.len() ==> (#[trigger] encoded@[i]) is Some
                    && encoded@[i].unwrap()@ == self.keys@[from + i]@,
    {
        let mut encoded: Vec<Option<String>> = Vec::new();
        let mut i: usize = from;
        while i < to
            invariant
                from <= i <= to <= self.keys@.len(),
                encoded@.len() == i - from,
                forall|k: int|
                    0 <= k < encoded@.len() ==> (#[trigger] encoded@[k]) is Some
                        && encoded@[k].unwrap()@ == self.keys@[from + k]@,
            decreases to - i,
        {
            encoded.push(request_key(self.keys[i].as_str()));
            i = i + 1;
        }
        encoded
    }

    /// Hands out the next batch: the next keys, up to the limit. `None` when
    /// no key is left, and while a batch awaits its outcome.
    ///
    /// A key that cannot be encoded for the request is left out of its batch,
    /// and a batch of which nothing is left is passed over. The encoder
    /// takes every key, so neither happens.
    pub fn next_batch(&mut self) -> (request: Option<Vec<String>>)
        requires
            old(self).wf(),
        ensures
            final(self).wf(),
            old(self)@.next_step(final(self)@, request),
    {
        if self.awaiting {
            return None;
        }
        while self.position < self.keys.len()
            invariant
                self.wf(),
                !self.awaiting,
                *self == *old(self),
            decreases self.keys.len() - self.position,
        {
            let ghost pre = self@;
            let end = if self.keys.len() - self.position <= self.limit {
                self.keys.len()
            } else {
                self.position + self.limit
            };
            let encoded = self.encode(self.position, end);
            proof {
                lemma_all_encoded(encoded@);
                lemma_next_batch_starts_at_position(pre);
            }
            let taken = end - self.position;
            match batch_request(encoded) {
                Some(keys) => {
                    proof {
                        assert(key_texts(keys@) =~= key_texts(pre.keys).subrange(
                            pre.position,
                            end as int,
                        ));
                    }
                    self.position = end;
                    self.awaiting = true;
                    self.report.keys_dropped = add_capped(
                        self.report.keys_dropped,
                        taken - keys.len(),
                    );
                    self.report.batches_sent = self.report.batches_sent + 1;
                    self.record = Ghost(
                        BatcherView {
                            position: end as int,
                            sent: pre.sent.push(key_texts(keys@)),
                            report: self.report,
                            ..pre
                        },
                    );
                    proof {
                        lemma_next_keeps_inv(pre, self@, Some(keys));
                    }
                    return Some(keys);
                },
                None => {
                    self.position = end;
                    self.report.batches_skipped = add_capped(self.report.batches_skipped, 1);
                    self.report.keys_dropped = add_capped(self.report.keys_dropped, taken);
                    self.record = Ghost(
                        BatcherView { position: end as int, report: self.report, ..pre },
                    );
                },
            }
        }
        None
    }

    /// Records what came of the batch that was handed out last. Whatever it
    /// is, the next batch can be asked for.
    pub fn record(&mut self, outcome: BatchOutcome)
        requires
            old(self).wf(),
        ensures
            final(self).wf(),
            final(self)@ == old(self)@.after_outcome(outcome),
    {
        if !self.awaiting {
            return ;
        }
        let ghost pre = self@;
        match &outcome {
            BatchOutcome::Deleted { deleted, failed } => {
                self.report.keys_deleted = add_capped(self.report.keys_deleted, *deleted);
                self.report.keys_failed = add_capped(self.report.keys_failed, *failed);
            },
            BatchOutcome::TransportFailed(_) => {
                self.report.batches_failed = add_capped(self.report.batches_failed, 1);
            },
        }
        self.awaiting = false;
        self.record = Ghost(pre.after_outcome(outcome));
        proof {
            lemma_outcome_keeps_going(pre, outcome);
        }
    }

    /// Whether every key has been dealt with and every outcome recorded.
    pub fn is_finished(&self) -> (finished: bool)
        requires
            self.wf(),
        ensures
            finished == self@.finished(),
    {
        self.position == self.keys.len() && !self.awaiting
    }

    /// The number of keys to delete.
    pub fn key_count(&self) -> (count: usize)
        requires
            self.wf(),
        ensures
            count == self@.keys.len(),
    {
        self.keys.len()
    }

    /// The account so far.
    pub fn report(&self) -> (report: DeletionReport)
        requires
            self.wf(),
        ensures
            report == self@.report,
    {
        self.report
    }
}

/// The batcher that deletes `keys` in batches of at most `BATCH_LIMIT` keys.
/// Nothing has been handed out yet.
pub fn delete_keys(keys: Vec<String>) -> (batcher: DeletionBatcher)
    ensures
        batcher.wf(),
        batcher@ == (BatcherView {
            keys: keys@,
            limit: BATCH_LIMIT as int,
            position: 0,
            sent: Seq::empty(),
            outcomes: Seq::empty(),
            report: DeletionReport::empty(),
        }),
{
    DeletionBatcher::with_limit(keys, BATCH_LIMIT)
}

} // verus!
