//! The chunked upload sink: a sequential byte sink that hands its bytes to the
//! store in parts of a fixed size, or in one whole-object write when the total
//! never reaches one part.
//!
//! The sink performs no I/O. Each operation may hand out one request; the
//! caller performs it and reports the store's answer with
//! [`MultipartUploadSink::respond`]. At most one request is outstanding at any
//! time, and while one is outstanding the sink accepts no bytes.

use vstd::arithmetic::div_mod::lemma_fundamental_div_mod_converse;
use vstd::prelude::*;
use vstd::string::StringExecFns;

verus! {

/// A part that the store has acknowledged, with the tag it assigned.
#[derive(Debug, PartialEq, Eq)]
pub struct UploadPart {
    pub part_number: i32,
    pub etag: String,
}

/// Why a sink failed: which of the store's operations did not succeed.
#[derive(Debug, PartialEq, Eq)]
pub enum SinkError {
    UploadSession(String),
    UploadPart(String),
    UploadComplete(String),
}

/// The state of a sink. `Failed` and `Completed` are terminal.
#[derive(Debug, PartialEq, Eq)]
pub enum SinkState {
    Idle,
    InitiatingUpload,
    UploadingPart,
    CompletingUpload,
    Completed,
    Failed(SinkError),
}

/// What the sink asks of the store.
#[derive(Debug, PartialEq, Eq)]
pub enum SinkRequest {
    CreateUpload,
    UploadPart { upload_id: String, part_number: i32, body: Vec<u8> },
    CompleteUpload { upload_id: String, parts: Vec<UploadPart> },
    PutObject { body: Vec<u8> },
}

/// What the store answered to the outstanding request.
#[derive(Debug, PartialEq, Eq)]
pub enum SinkResponse {
    /// The session was created, under this identifier if the store gave one.
    UploadCreated { upload_id: Option<String> },
    /// The part was taken, under this tag if the store gave one.
    PartUploaded { etag: Option<String> },
    /// The completion, or the single write, succeeded.
    Completed,
    /// The request failed.
    Failed { message: String },
}

/// Why the sink took no bytes, or did not close.
#[derive(Debug, PartialEq, Eq)]
pub enum Rejection {
    /// A request is outstanding: report its answer first.
    Busy,
    /// The object is complete.
    Closed,
    /// The sink has failed, with this error.
    Failed(SinkError),
}

/// What a successful write did: how many bytes it took, and the request that
/// reaching the threshold set off, if any.
#[derive(Debug, PartialEq, Eq)]
pub struct Written {
    pub accepted: usize,
    pub request: Option<SinkRequest>,
}

/// The message of the failure that ends a sink whose next part number would
/// not fit the store's 32-bit part numbers.
pub open spec fn part_overflow_message() -> Seq<char> {
    "part number out of range"@
}

/// The message of the failure that ends a sink which was given an answer of
/// another kind than its outstanding request has.
pub open spec fn unexpected_response_message() -> Seq<char> {
    "unexpected response"@
}

/// The message of the failure that ends a sink whose session the store
/// created without an identifier.
pub open spec fn missing_upload_id_message() -> Seq<char> {
    "No upload ID received"@
}

/// The message of the failure that ends a sink whose part the store took
/// without giving a tag for it: the sink makes up none.
pub open spec fn missing_etag_message() -> Seq<char> {
    "No ETag in upload part response"@
}

/// Where the part with this number starts in the uploaded object, when every
/// part before it has the full size.
pub open spec fn part_start(part_number: int, threshold: int) -> int {
    (part_number - 1) * threshold
}

/// A sink as the contracts see it: its present state, and the record of what
/// has passed through it.
pub struct SinkView {
    /// The part size: a part is started when this many bytes are buffered.
    pub threshold: int,
    pub state: SinkState,
    /// Accepted bytes not yet handed to the store.
    pub buffer: Seq<u8>,
    /// The upload session, once the store has created one.
    pub upload_id: Option<String>,
    /// The parts acknowledged so far, oldest first.
    pub parts: Seq<UploadPart>,
    /// Every byte ever accepted, in the order of acceptance.
    pub accepted: Seq<u8>,
    /// Every request handed out, oldest first.
    pub requests: Seq<SinkRequest>,
    /// Every answer reported for a request, oldest first: the answer at an
    /// index belongs to the request at that index.
    pub responses: Seq<SinkResponse>,
}

impl SinkView {
    /// A request is outstanding.
    pub open spec fn in_flight(self) -> bool {
        self.state is InitiatingUpload || self.state is UploadingPart
            || self.state is CompletingUpload
    }

    /// The number of bytes handed to the store so far.
    pub open spec fn sent(self) -> int {
        self.accepted.len() - self.buffer.len()
    }

    /// `close` has been accepted.
    pub open spec fn closing(self) -> bool {
        self.state is CompletingUpload || self.state is Completed
    }

    /// The request at index `j` is the part numbered `j` of session `id`, and
    /// holds the bytes that were accepted at the part's place, none beyond
    /// what has been sent. Only the newest of `count` parts may be short, and
    /// only once the sink is closing.
    pub open spec fn part_request_ok(self, id: String, j: int, count: int) -> bool {
        &&& self.requests[j] matches SinkRequest::UploadPart { upload_id, part_number, body }
        &&& upload_id == id
        &&& part_number == j
        &&& 0 < body@.len() <= self.threshold
        &&& part_start(j, self.threshold) + body@.len() <= self.sent()
        &&& body@ == self.accepted.subrange(
            part_start(j, self.threshold),
            part_start(j, self.threshold) + body@.len(),
        )
        &&& (j < count || !self.closing()) ==> body@.len() == self.threshold
        &&& j == count ==> part_start(j, self.threshold) + body@.len() == self.sent()
    }

    /// What holds of a sink without a session: nothing was sent but, once it
    /// is closing, the whole object in a single write.
    pub open spec fn shape_without_session(self) -> bool {
        &&& self.parts.len() == 0
        &&& match self.state {
            SinkState::Idle => {
                &&& self.requests.len() == 0
                &&& self.responses.len() == 0
                &&& self.sent() == 0
            },
            SinkState::InitiatingUpload => {
                &&& self.requests.len() == 1
                &&& self.requests[0] is CreateUpload
                &&& self.responses.len() == 0
                &&& self.buffer.len() >= self.threshold
                &&& self.sent() == 0
            },
            SinkState::CompletingUpload => {
                &&& self.requests.len() == 1
                &&& self.requests[0] matches SinkRequest::PutObject { body }
                &&& body@ == self.accepted
                &&& self.responses.len() == 0
                &&& self.buffer.len() == 0
                &&& self.accepted.len() < self.threshold
            },
            SinkState::Completed => {
                &&& self.requests.len() == 1
                &&& self.requests[0] matches SinkRequest::PutObject { body }
                &&& body@ == self.accepted
                &&& self.responses.len() == 1
                &&& self.responses[0] is Completed
                &&& self.buffer.len() == 0
                &&& self.accepted.len() < self.threshold
            },
            _ => false,
        }
    }

    /// The number of part requests handed out in session `id`.
    pub open spec fn part_requests(self) -> int {
        if self.state is UploadingPart || (self.state is CompletingUpload
            && self.requests.last() is UploadPart) {
            self.parts.len() as int + 1
        } else {
            self.parts.len() as int
        }
    }

    /// What holds of a sink with session `id`: the session's creation, then
    /// the parts in order, then, once no bytes are left, the completion.
    pub open spec fn shape_with_session(self, id: String) -> bool {
        let n = self.parts.len() as int;
        let count = self.part_requests();
        &&& self.accepted.len() >= self.threshold
        &&& self.requests.len() >= 1 + count
        &&& self.requests[0] is CreateUpload
        &&& self.responses.len() >= 1 + n
        &&& self.responses[0] == (SinkResponse::UploadCreated { upload_id: Some(id) })
        &&& forall|j: int| 1 <= j <= count ==> self.part_request_ok(id, j, count)
        &&& forall|j: int|
            1 <= j <= n ==> #[trigger] self.responses[j] == (SinkResponse::PartUploaded {
                etag: Some(self.parts[j - 1].etag),
            })
        &&& count == 0 ==> self.sent() == 0
        &&& match self.state {
            SinkState::Idle => {
                &&& self.requests.len() == 1 + n
                &&& self.responses.len() == 1 + n
            },
            SinkState::UploadingPart => {
                &&& self.requests.len() == 2 + n
                &&& self.responses.len() == 1 + n
            },
            SinkState::CompletingUpload => {
                &&& self.requests.len() == 2 + n
                &&& self.responses.len() == 1 + n
                &&& self.buffer.len() == 0
                &&& !(self.requests.last() is UploadPart) ==> self.completion_ok(id)
            },
            SinkState::Completed => {
                &&& self.requests.len() == 2 + n
                &&& self.responses.len() == 2 + n
                &&& self.responses[1 + n] is Completed
                &&& self.buffer.len() == 0
                &&& self.completion_ok(id)
            },
            _ => false,
        }
    }

    /// The newest request completes session `id` with the acknowledged parts.
    pub open spec fn completion_ok(self, id: String) -> bool {
        &&& self.requests.last() matches SinkRequest::CompleteUpload { upload_id, parts }
        &&& upload_id == id
        &&& parts@ == self.parts
    }

    /// The invariant of every sink: an idle sink holds less than one part, and
    /// [`SinkView::recorded`] holds.
    pub open spec fn inv(self) -> bool {
        &&& self.recorded()
        &&& self.state is Idle ==> self.buffer.len() < self.threshold
    }

    /// The parts are numbered from 1 without a gap, the buffer is the unsent
    /// end of what was accepted, and unless the sink has failed, the requests
    /// handed out are those of one upload of the accepted bytes, in order.
    pub open spec fn recorded(self) -> bool {
        &&& self.threshold > 0
        &&& self.buffer.len() <= self.accepted.len()
        &&& self.buffer == self.accepted.subrange(self.sent(), self.accepted.len() as int)
        &&& forall|i: int|
            0 <= i < self.parts.len() ==> (#[trigger] self.parts[i]).part_number == i + 1
        &&& self.parts.len() <= i32::MAX
        &&& self.requests.len() == self.responses.len() + if self.in_flight() {
            1int
        } else {
            0int
        }
        &&& !(self.state is Failed) ==> match self.upload_id {
            None => self.shape_without_session(),
            Some(id) => self.shape_with_session(id),
        }
    }
}

impl SinkView {
    /// `post` is this sink after it has handed out the next part of session
    /// `id`, made of the first `len` buffered bytes, and has gone on to
    /// `next`; or after it has failed, for want of a part number.
    pub open spec fn part_started(
        self,
        id: String,
        len: int,
        next: SinkState,
        post: SinkView,
        request: Option<SinkRequest>,
    ) -> bool {
        if self.parts.len() >= i32::MAX {
            &&& request is None
            &&& post.state matches SinkState::Failed(SinkError::UploadPart(m))
            &&& m@ == part_overflow_message()
            &&& post == (SinkView { state: post.state, ..self })
        } else {
            &&& request matches Some(SinkRequest::UploadPart { upload_id, part_number, body })
            &&& upload_id == id
            &&& part_number == self.parts.len() + 1
            &&& body@ == self.buffer.subrange(0, len)
            &&& post == (SinkView {
                state: next,
                buffer: self.buffer.subrange(len, self.buffer.len() as int),
                requests: self.requests.push(request.unwrap()),
                ..self
            })
        }
    }

    /// `post` is this idle sink after the threshold was checked: with a full
    /// part buffered, the session is asked for if there is none yet, else
    /// the next part is handed out; with less, nothing happens.
    pub open spec fn pumped(self, post: SinkView, request: Option<SinkRequest>) -> bool {
        if self.buffer.len() < self.threshold {
            post == self && request is None
        } else {
            match self.upload_id {
                None => {
                    &&& request == Some(SinkRequest::CreateUpload)
                    &&& post == (SinkView {
                        state: SinkState::InitiatingUpload,
                        requests: self.requests.push(SinkRequest::CreateUpload),
                        ..self
                    })
                },
                Some(id) => self.part_started(
                    id,
                    self.threshold,
                    SinkState::UploadingPart,
                    post,
                    request,
                ),
            }
        }
    }

    /// `post` and `result` are what a write of `bytes` leaves and returns.
    ///
    /// An idle sink takes all the bytes and checks the threshold. A sink with
    /// a request outstanding, a completed sink and a failed one take nothing
    /// and stay as they are.
    pub open spec fn write_step(
        self,
        bytes: Seq<u8>,
        post: SinkView,
        result: Result<Written, Rejection>,
    ) -> bool {
        match self.state {
            SinkState::Failed(e) => post == self && result == Err::<Written, Rejection>(
                Rejection::Failed(e),
            ),
            SinkState::Completed => post == self && result == Err::<Written, Rejection>(
                Rejection::Closed,
            ),
            SinkState::Idle => {
                let mid = SinkView {
                    buffer: self.buffer + bytes,
                    accepted: self.accepted + bytes,
                    ..self
                };
                match post.state {
                    SinkState::Failed(e) => {
                        &&& mid.pumped(post, None)
                        &&& result == Err::<Written, Rejection>(Rejection::Failed(e))
                    },
                    _ => {
                        &&& result matches Ok(w)
                        &&& w.accepted == bytes.len()
                        &&& mid.pumped(post, w.request)
                    },
                }
            },
            _ => post == self && result == Err::<Written, Rejection>(Rejection::Busy),
        }
    }
}

impl SinkError {
    /// The message that the error carries.
    pub open spec fn message(self) -> Seq<char> {
        match self {
            SinkError::UploadSession(m) => m@,
            SinkError::UploadPart(m) => m@,
            SinkError::UploadComplete(m) => m@,
        }
    }
}

impl SinkView {
    /// The outstanding request is a part.
    pub open spec fn part_in_flight(self) -> bool {
        self.state is UploadingPart || (self.state is CompletingUpload
            && self.requests.last() is UploadPart)
    }

    /// `response` is the answer that the outstanding request calls for: the
    /// session with its identifier, the part with its tag, or the success of
    /// the completion or of the single write.
    pub open spec fn expects(self, response: SinkResponse) -> bool {
        match self.state {
            SinkState::InitiatingUpload => response matches SinkResponse::UploadCreated {
                upload_id,
            } && upload_id is Some,
            SinkState::UploadingPart => response matches SinkResponse::PartUploaded { etag }
                && etag is Some,
            SinkState::CompletingUpload => if self.part_in_flight() {
                response matches SinkResponse::PartUploaded { etag } && etag is Some
            } else {
                response is Completed
            },
            _ => false,
        }
    }

    /// The message of the failure that `response` stands for, where it is
    /// not the answer that the outstanding request calls for: the store's
    /// own message, or what is missing in the answer, or that the answer is
    /// of another kind.
    pub open spec fn failure_message(self, response: SinkResponse) -> Seq<char> {
        match response {
            SinkResponse::Failed { message } => message@,
            SinkResponse::UploadCreated { upload_id } => if self.state is InitiatingUpload {
                missing_upload_id_message()
            } else {
                unexpected_response_message()
            },
            SinkResponse::PartUploaded { etag } => if self.part_in_flight() {
                missing_etag_message()
            } else {
                unexpected_response_message()
            },
            SinkResponse::Completed => unexpected_response_message(),
        }
    }

    /// `error` is of the kind that a failure of the outstanding request has.
    pub open spec fn fails_as(self, error: SinkError) -> bool {
        match self.state {
            SinkState::InitiatingUpload => error is UploadSession,
            SinkState::UploadingPart => error is UploadPart,
            SinkState::CompletingUpload => if self.part_in_flight() {
                error is UploadPart
            } else {
                error is UploadComplete
            },
            _ => false,
        }
    }

    /// `post` is this sink after it has asked the store to complete its
    /// session with the parts acknowledged.
    pub open spec fn completion_started(self, post: SinkView, request: Option<SinkRequest>) -> bool {
        &&& request matches Some(SinkRequest::CompleteUpload { upload_id, parts })
        &&& Some(upload_id) == self.upload_id
        &&& parts@ == self.parts
        &&& post == (SinkView {
            state: SinkState::CompletingUpload,
            requests: self.requests.push(request.unwrap()),
            ..self
        })
    }

    /// This sink with one more part acknowledged under the tag `etag`.
    pub open spec fn acknowledged(self, etag: String) -> SinkView {
        SinkView {
            parts: self.parts.push(
                UploadPart { part_number: (self.parts.len() + 1) as i32, etag },
            ),
            ..self
        }
    }

    /// `post` and `result` are what the answer `response` to the outstanding
    /// request leaves and returns.
    ///
    /// The session's creation and a part's acknowledgement are recorded and
    /// the threshold is checked again, which may hand out the next part. The
    /// acknowledgement of the last part of a closing sink hands out the
    /// completion. The completion's success, or that of the single write,
    /// completes the sink. Any other answer fails the sink, with the error of
    /// the request's kind. A sink with nothing outstanding stays as it is.
    pub open spec fn respond_step(
        self,
        response: SinkResponse,
        post: SinkView,
        result: Result<Option<SinkRequest>, SinkError>,
    ) -> bool {
        let answered = SinkView { responses: self.responses.push(response), ..self };
        match self.state {
            SinkState::Failed(e) => post == self && result == Err::<Option<SinkRequest>, SinkError>(
                e,
            ),
            SinkState::Idle | SinkState::Completed => post == self && result == Ok::<
                Option<SinkRequest>,
                SinkError,
            >(None),
            _ => if !self.expects(response) {
                &&& post.state matches SinkState::Failed(e)
                &&& self.fails_as(e)
                &&& e.message() == self.failure_message(response)
                &&& post == (SinkView { state: post.state, ..answered })
                &&& result == Err::<Option<SinkRequest>, SinkError>(e)
            } else {
                match response {
                    SinkResponse::UploadCreated { upload_id } => {
                        let mid = SinkView { state: SinkState::Idle, upload_id, ..answered };
                        mid.pumped_to(post, result)
                    },
                    SinkResponse::PartUploaded { etag } => if self.state is UploadingPart {
                        let mid = SinkView {
                            state: SinkState::Idle,
                            ..answered.acknowledged(etag.unwrap())
                        };
                        mid.pumped_to(post, result)
                    } else {
                        &&& result matches Ok(request)
                        &&& answered.acknowledged(etag.unwrap()).completion_started(
                            post,
                            request,
                        )
                    },
                    _ => {
                        &&& post == (SinkView { state: SinkState::Completed, ..answered })
                        &&& result == Ok::<Option<SinkRequest>, SinkError>(None)
                    },
                }
            },
        }
    }

    /// `post` is this idle sink after the threshold was checked, and `result`
    /// the request that this handed out, or the error that it failed with.
    pub open spec fn pumped_to(
        self,
        post: SinkView,
        result: Result<Option<SinkRequest>, SinkError>,
    ) -> bool {
        match post.state {
            SinkState::Failed(e) => {
                &&& self.pumped(post, None)
                &&& result == Err::<Option<SinkRequest>, SinkError>(e)
            },
            _ => {
                &&& result matches Ok(request)
                &&& self.pumped(post, request)
            },
        }
    }

    /// `post` and `result` are what closing leaves and returns.
    ///
    /// An idle sink without a session hands out all its bytes as one
    /// whole-object write. One with a session hands out what is buffered as
    /// the last part, whatever its size, or the completion at once when
    /// nothing is buffered. A sink with a request outstanding is `Busy`; a
    /// completed sink stays completed; a failed one returns its error again.
    pub open spec fn close_step(
        self,
        post: SinkView,
        result: Result<Option<SinkRequest>, Rejection>,
    ) -> bool {
        match self.state {
            SinkState::Failed(e) => post == self && result == Err::<
                Option<SinkRequest>,
                Rejection,
            >(Rejection::Failed(e)),
            SinkState::Completed => post == self && result == Ok::<
                Option<SinkRequest>,
                Rejection,
            >(None),
            SinkState::Idle => match self.upload_id {
                None => {
                    &&& result matches Ok(Some(SinkRequest::PutObject { body }))
                    &&& body@ == self.buffer
                    &&& post == (SinkView {
                        state: SinkState::CompletingUpload,
                        buffer: Seq::empty(),
                        requests: self.requests.push(result.unwrap().unwrap()),
                        ..self
                    })
                },
                Some(id) => if self.buffer.len() > 0 {
                    match post.state {
                        SinkState::Failed(e) => {
                            &&& self.part_started(
                                id,
                                self.buffer.len() as int,
                                SinkState::CompletingUpload,
                                post,
                                None,
                            )
                            &&& result == Err::<Option<SinkRequest>, Rejection>(
                                Rejection::Failed(e),
                            )
                        },
                        _ => {
                            &&& result matches Ok(request)
                            &&& self.part_started(
                                id,
                                self.buffer.len() as int,
                                SinkState::CompletingUpload,
                                post,
                                request,
                            )
                        },
                    }
                } else {
                    &&& result matches Ok(request)
                    &&& self.completion_started(post, request)
                },
            },
            _ => post == self && result == Err::<Option<SinkRequest>, Rejection>(Rejection::Busy),
        }
    }

    /// What a flush returns: nothing is left to wait for in an idle or a
    /// completed sink.
    pub open spec fn flush_result(self) -> Result<(), Rejection> {
        match self.state {
            SinkState::Failed(e) => Err(Rejection::Failed(e)),
            SinkState::Idle | SinkState::Completed => Ok(()),
            _ => Err(Rejection::Busy),
        }
    }
}

/// Handing out the next part keeps what is recorded: a full part while the
/// sink is open, the whole rest once it closes.
pub proof fn lemma_part_started_keeps_recorded(
    mid: SinkView,
    id: String,
    len: int,
    next: SinkState,
    post: SinkView,
    request: Option<SinkRequest>,
)
    requires
        mid.recorded(),
        mid.state is Idle,
        mid.upload_id == Some(id),
        mid.part_started(id, len, next, post, request),
        0 < len <= mid.buffer.len(),
        len <= mid.threshold,
        (next is UploadingPart && len == mid.threshold) || (next is CompletingUpload && len
            == mid.buffer.len()),
    ensures
        post.recorded(),
{
    if mid.parts.len() < i32::MAX {
        let n = mid.parts.len() as int;
        let t = mid.threshold;
        assert(mid.shape_with_session(id));
        assert(mid.part_requests() == n);
        assert(post.requests.last() == request.unwrap());
        assert(post.part_requests() == n + 1);
        assert(part_start(n + 1, t) == mid.sent()) by {
            if n == 0 {
                assert(part_start(1, t) == 0) by (nonlinear_arith);
            } else {
                assert(mid.part_request_ok(id, n, n));
                assert(part_start(n, t) + t == part_start(n + 1, t)) by (nonlinear_arith)
                    requires
                        part_start(n, t) == (n - 1) * t,
                        part_start(n + 1, t) == (n + 1 - 1) * t,
                ;
            }
        }
        assert(post.buffer == post.accepted.subrange(post.sent(), post.accepted.len() as int));
        assert(mid.buffer.subrange(0, len) == mid.accepted.subrange(
            mid.sent(),
            mid.sent() + len,
        ));
        let count = n + 1;
        assert forall|j: int| 1 <= j <= count implies post.part_request_ok(id, j, count) by {
            if j <= n {
                assert(mid.part_request_ok(id, j, n));
                assert(post.requests[j] == mid.requests[j]);
            }
        }
        assert(post.shape_with_session(id));
    }
}


/// A threshold check keeps what is recorded, and leaves the sink in order.
pub proof fn lemma_pumped_keeps_inv(mid: SinkView, post: SinkView, request: Option<SinkRequest>)
    requires
        mid.recorded(),
        mid.state is Idle,
        mid.pumped(post, request),
    ensures
        post.inv(),
{
    if mid.buffer.len() >= mid.threshold {
        match mid.upload_id {
            None => {
                assert(post.buffer == post.accepted.subrange(
                    post.sent(),
                    post.accepted.len() as int,
                ));
            },
            Some(id) => {
                lemma_part_started_keeps_recorded(
                    mid,
                    id,
                    mid.threshold,
                    SinkState::UploadingPart,
                    post,
                    request,
                );
            },
        }
    }
}

/// A write keeps the invariant.
pub proof fn lemma_write_keeps_inv(
    pre: SinkView,
    bytes: Seq<u8>,
    post: SinkView,
    result: Result<Written, Rejection>,
)
    requires
        pre.inv(),
        pre.write_step(bytes, post, result),
    ensures
        post.inv(),
{
    if pre.state is Idle {
        let mid = SinkView { buffer: pre.buffer + bytes, accepted: pre.accepted + bytes, ..pre };
        lemma_buffering_keeps_recorded(pre, bytes);
        let request = if post.state is Failed {
            None
        } else {
            result.unwrap().request
        };
        lemma_pumped_keeps_inv(mid, post, request);
    }
}

/// Taking bytes into the buffer keeps what is recorded.
pub proof fn lemma_buffering_keeps_recorded(pre: SinkView, bytes: Seq<u8>)
    requires
        pre.recorded(),
        pre.state is Idle,
    ensures
        (SinkView { buffer: pre.buffer + bytes, accepted: pre.accepted + bytes, ..pre }).recorded(),
{
    let mid = SinkView { buffer: pre.buffer + bytes, accepted: pre.accepted + bytes, ..pre };
    assert(mid.buffer =~= mid.accepted.subrange(mid.sent(), mid.accepted.len() as int));
    match mid.upload_id {
        None => {},
        Some(id) => {
            let count = mid.part_requests();
            assert forall|j: int| 1 <= j <= count implies mid.part_request_ok(id, j, count) by {
                assert(pre.part_request_ok(id, j, count));
                let body = pre.requests[j]->UploadPart_body;
                let start = part_start(j, pre.threshold);
                assert(pre.accepted.subrange(start, start + body@.len()) =~= mid.accepted.subrange(
                    start,
                    start + body@.len(),
                ));
            }
        },
    }
}

/// The session's creation keeps what is recorded.
pub proof fn lemma_session_created_keeps_recorded(pre: SinkView, upload_id: String)
    requires
        pre.inv(),
        pre.state is InitiatingUpload,
    ensures
        (SinkView {
            state: SinkState::Idle,
            upload_id: Some(upload_id),
            responses: pre.responses.push(SinkResponse::UploadCreated { upload_id: Some(upload_id) }),
            ..pre
        }).recorded(),
{
    let mid = SinkView {
        state: SinkState::Idle,
        upload_id: Some(upload_id),
        responses: pre.responses.push(SinkResponse::UploadCreated { upload_id: Some(upload_id) }),
        ..pre
    };
    assert(mid.shape_with_session(upload_id));
}

/// The acknowledgement of a part of an open sink keeps what is recorded.
pub proof fn lemma_part_acknowledged_keeps_recorded(pre: SinkView, etag: String)
    requires
        pre.inv(),
        pre.state is UploadingPart,
    ensures
        (SinkView {
            state: SinkState::Idle,
            ..(SinkView {
                responses: pre.responses.push(SinkResponse::PartUploaded { etag: Some(etag) }),
                ..pre
            }).acknowledged(etag)
        }).recorded(),
{
    let answered = SinkView {
        responses: pre.responses.push(SinkResponse::PartUploaded { etag: Some(etag) }),
        ..pre
    };
    let mid = SinkView { state: SinkState::Idle, ..answered.acknowledged(etag) };
    let id = pre.upload_id.unwrap();
    let count = pre.parts.len() as int + 1;
    assert(pre.part_request_ok(id, count, count));
    assert forall|j: int| 1 <= j <= count implies mid.part_request_ok(id, j, count) by {
        assert(pre.part_request_ok(id, j, count));
    }
    assert(mid.shape_with_session(id));
}

/// An answer keeps the invariant.
pub proof fn lemma_respond_keeps_inv(
    pre: SinkView,
    response: SinkResponse,
    post: SinkView,
    result: Result<Option<SinkRequest>, SinkError>,
)
    requires
        pre.inv(),
        pre.respond_step(response, post, result),
    ensures
        post.inv(),
{
    let answered = SinkView { responses: pre.responses.push(response), ..pre };
    if pre.in_flight() && pre.expects(response) {
        match response {
            SinkResponse::UploadCreated { upload_id } => {
                let mid = SinkView { state: SinkState::Idle, upload_id, ..answered };
                lemma_session_created_keeps_recorded(pre, upload_id.unwrap());
                let request = if post.state is Failed {
                    None
                } else {
                    result.unwrap()
                };
                lemma_pumped_keeps_inv(mid, post, request);
            },
            SinkResponse::PartUploaded { etag } => {
                let etag = etag.unwrap();
                let id = pre.upload_id.unwrap();
                let n = pre.parts.len() as int;
                let count = n + 1;
                assert(pre.part_request_ok(id, count, count));
                let acked = answered.acknowledged(etag);
                if pre.state is UploadingPart {
                    let mid = SinkView { state: SinkState::Idle, ..acked };
                    lemma_part_acknowledged_keeps_recorded(pre, etag);
                    let request = if post.state is Failed {
                        None
                    } else {
                        result.unwrap()
                    };
                    lemma_pumped_keeps_inv(mid, post, request);
                } else {
                    assert forall|j: int| 1 <= j <= count implies post.part_request_ok(
                        id,
                        j,
                        count,
                    ) by {
                        assert(pre.part_request_ok(id, j, count));
                        assert(post.requests[j] == pre.requests[j]);
                    }
                    assert(post.shape_with_session(id));
                }
            },
            _ => {
                match pre.upload_id {
                    None => {},
                    Some(id) => {
                        let count = pre.part_requests();
                        assert forall|j: int| 1 <= j <= count implies post.part_request_ok(
                            id,
                            j,
                            count,
                        ) by {
                            assert(pre.part_request_ok(id, j, count));
                        }
                        assert(post.shape_with_session(id));
                    },
                }
            },
        }
    }
}

/// Closing keeps the invariant.
pub proof fn lemma_close_keeps_inv(
    pre: SinkView,
    post: SinkView,
    result: Result<Option<SinkRequest>, Rejection>,
)
    requires
        pre.inv(),
        pre.close_step(post, result),
    ensures
        post.inv(),
{
    if pre.state is Idle {
        match pre.upload_id {
            None => {
                assert(post.buffer =~= post.accepted.subrange(
                    post.sent(),
                    post.accepted.len() as int,
                ));
                assert(pre.buffer =~= pre.accepted);
            },
            Some(id) => {
                if pre.buffer.len() > 0 {
                    let request = if post.state is Failed {
                        None
                    } else {
                        result.unwrap()
                    };
                    lemma_part_started_keeps_recorded(
                        pre,
                        id,
                        pre.buffer.len() as int,
                        SinkState::CompletingUpload,
                        post,
                        request,
                    );
                } else {
                    let count = pre.part_requests();
                    assert forall|j: int| 1 <= j <= count implies post.part_request_ok(
                        id,
                        j,
                        count,
                    ) by {
                        assert(pre.part_request_ok(id, j, count));
                        assert(post.requests[j] == pre.requests[j]);
                    }
                    assert(post.shape_with_session(id));
                }
            },
        }
    }
}

/// The number of parts that an object of `total` bytes takes: the full parts,
/// and one more for a remainder.
pub open spec fn parts_needed(total: int, threshold: int) -> int {
    if total % threshold == 0 {
        total / threshold
    } else {
        total / threshold + 1
    }
}

/// Where the part with this number ends in an object of `total` bytes: one
/// threshold after its start, or at the end of the object.
pub open spec fn part_end(part_number: int, threshold: int, total: int) -> int {
    if part_start(part_number, threshold) + threshold <= total {
        part_start(part_number, threshold) + threshold
    } else {
        total
    }
}

impl SinkView {
    /// The requests are those of a multi-part upload of all the accepted
    /// bytes: the session's creation, then the parts numbered from 1, each
    /// holding the accepted bytes at its place, then the completion with the
    /// acknowledged parts.
    pub open spec fn uploaded_in_parts(self, id: String) -> bool {
        let total = self.accepted.len() as int;
        let count = parts_needed(total, self.threshold);
        &&& self.requests.len() == count + 2
        &&& self.requests[0] is CreateUpload
        &&& forall|j: int|
            1 <= j <= count ==> {
                &&& #[trigger] self.requests[j] matches SinkRequest::UploadPart {
                    upload_id,
                    part_number,
                    body,
                }
                &&& upload_id == id
                &&& part_number == j
                &&& body@ == self.accepted.subrange(
                    part_start(j, self.threshold),
                    part_end(j, self.threshold, total),
                )
            }
        &&& self.requests[count + 1] matches SinkRequest::CompleteUpload { upload_id, parts }
        &&& upload_id == id
        &&& parts@ == self.parts
        &&& self.parts.len() == count
    }

    /// The only request is the single write of all the accepted bytes.
    pub open spec fn uploaded_whole(self) -> bool {
        &&& self.requests.len() == 1
        &&& self.requests[0] matches SinkRequest::PutObject { body }
        &&& body@ == self.accepted
    }
}

/// What a completed sink has asked of the store.
///
/// Where fewer bytes than one threshold were accepted, no session and no
/// part: a single whole-object write. Where `n` thresholds and `r` more bytes
/// were accepted, `r` under the threshold: a session, then `n` full parts
/// and, if `r` is not 0, a last part of `r` bytes, numbered from 1 in the
/// order of the bytes, then the completion that lists them.
pub proof fn lemma_completed_upload(sink: SinkView)
    requires
        sink.inv(),
        sink.state is Completed,
    ensures
        sink.accepted.len() < sink.threshold ==> sink.upload_id is None && sink.uploaded_whole(),
        sink.accepted.len() >= sink.threshold ==> sink.upload_id is Some
            && sink.uploaded_in_parts(sink.upload_id.unwrap()),
{
    let t = sink.threshold;
    let total = sink.accepted.len() as int;
    match sink.upload_id {
        None => {},
        Some(id) => {
            let n = sink.parts.len() as int;
            assert(sink.shape_with_session(id));
            assert(sink.part_requests() == n);
            assert(sink.sent() == total);
            assert(n >= 1);
            assert(sink.part_request_ok(id, n, n));
            let last = sink.requests[n]->UploadPart_body@.len() as int;
            assert(part_start(n, t) + last == total);
            if last == t {
                assert(total == n * t) by (nonlinear_arith)
                    requires
                        (n - 1) * t + t == total,
                ;
                lemma_fundamental_div_mod_converse(total, t, n, 0);
            } else {
                lemma_fundamental_div_mod_converse(total, t, n - 1, last);
            }
            assert(parts_needed(total, t) == n);
            assert forall|j: int| 1 <= j <= n implies {
                &&& #[trigger] sink.requests[j] matches SinkRequest::UploadPart {
                    upload_id,
                    part_number,
                    body,
                }
                &&& upload_id == id
                &&& part_number == j
                &&& body@ == sink.accepted.subrange(part_start(j, t), part_end(j, t, total))
            } by {
                assert(sink.part_request_ok(id, j, n));
            }
        },
    }
}

/// A failed sink stays failed: whatever is asked of it, it stays as it is and
/// returns the error that it failed with, and hands out no request.
pub proof fn lemma_failed_is_terminal(
    sink: SinkView,
    error: SinkError,
    bytes: Seq<u8>,
    response: SinkResponse,
    after_write: SinkView,
    written: Result<Written, Rejection>,
    after_response: SinkView,
    responded: Result<Option<SinkRequest>, SinkError>,
    after_close: SinkView,
    closed: Result<Option<SinkRequest>, Rejection>,
)
    requires
        sink.state == SinkState::Failed(error),
        sink.write_step(bytes, after_write, written),
        sink.respond_step(response, after_response, responded),
        sink.close_step(after_close, closed),
    ensures
        after_write == sink,
        after_response == sink,
        after_close == sink,
        written == Err::<Written, Rejection>(Rejection::Failed(error)),
        responded == Err::<Option<SinkRequest>, SinkError>(error),
        closed == Err::<Option<SinkRequest>, Rejection>(Rejection::Failed(error)),
        sink.flush_result() == Err::<(), Rejection>(Rejection::Failed(error)),
{
}

/// The parts are acknowledged in the order of their numbers, which start at 1
/// and leave no gap, under the tags that the store gave; and never is more
/// than one request without its answer.
pub proof fn lemma_parts_in_order(sink: SinkView)
    requires
        sink.inv(),
    ensures
        forall|i: int|
            0 <= i < sink.parts.len() ==> (#[trigger] sink.parts[i]).part_number == i + 1,
        forall|i: int, j: int|
            0 <= i < j < sink.parts.len() ==> (#[trigger] sink.parts[i]).part_number < (
            #[trigger] sink.parts[j]).part_number,
        !(sink.state is Failed) ==> forall|i: int|
            0 <= i < sink.parts.len() ==> #[trigger] sink.responses[i + 1]
                == (SinkResponse::PartUploaded { etag: Some(sink.parts[i].etag) }),
        sink.responses.len() <= sink.requests.len() <= sink.responses.len() + 1,
        sink.in_flight() <==> sink.requests.len() == sink.responses.len() + 1,
{
    if !(sink.state is Failed) {
        match sink.upload_id {
            None => {},
            Some(id) => {
                assert(sink.shape_with_session(id));
                assert forall|i: int| 0 <= i < sink.parts.len() implies #[trigger] sink.responses[i
                    + 1] == (SinkResponse::PartUploaded { etag: Some(sink.parts[i].etag) }) by {
                    let j = i + 1;
                    assert(sink.responses[j] == (SinkResponse::PartUploaded {
                        etag: Some(sink.parts[j - 1].etag),
                    }));
                }
            },
        }
    }
}

impl SinkError {
    /// A copy of this error.
    pub fn duplicate(&self) -> (copy: SinkError)
        ensures
            copy == *self,
    {
        match self {
            SinkError::UploadSession(m) => SinkError::UploadSession(m.clone()),
            SinkError::UploadPart(m) => SinkError::UploadPart(m.clone()),
            SinkError::UploadComplete(m) => SinkError::UploadComplete(m.clone()),
        }
    }
}

/// The chunked upload sink for one destination object.
pub struct MultipartUploadSink {
    bucket: String,
    key: String,
    threshold: usize,
    buffer: Vec<u8>,
    upload_id: Option<String>,
    parts: Vec<UploadPart>,
    completion_sent: bool,
    state: SinkState,
    record: Ghost<SinkView>,
}

impl View for MultipartUploadSink {
    type V = SinkView;

    closed spec fn view(&self) -> SinkView {
        self.record@
    }
}

impl MultipartUploadSink {
    /// The sink's fields are those that its view records, and the view is in
    /// order.
    pub closed spec fn wf(&self) -> bool {
        &&& self.coherent()
        &&& self@.inv()
    }

    /// As `wf`, but for the bound on what an idle sink holds.
    spec fn coherent(&self) -> bool {
        &&& self@.recorded()
        &&& self.fields_match()
    }

    /// The fields hold what the view records.
    spec fn fields_match(&self) -> bool {
        &&& self@.threshold == self.threshold
        &&& self@.buffer == self.buffer@
        &&& self@.upload_id == self.upload_id
        &&& self@.state == self.state
        &&& (self@.state is Idle || self@.state is InitiatingUpload || self@.part_in_flight())
            ==> self@.parts == self.parts@
        &&& self@.closing() && self@.upload_id is Some ==> self.completion_sent
            == !self@.part_in_flight()
    }

    /// The bucket of the destination object.
    pub closed spec fn spec_bucket(&self) -> Seq<char> {
        self.bucket@
    }

    /// The key of the destination object.
    pub closed spec fn spec_key(&self) -> Seq<char> {
        self.key@
    }

    /// A sink for the object `key` of `bucket`, which starts a part whenever
    /// `threshold` bytes are buffered. Nothing has been accepted or asked yet.
    pub fn new(bucket: String, key: String, threshold: usize) -> (sink: MultipartUploadSink)
        requires
            threshold > 0,
        ensures
            sink.wf(),
            sink.spec_bucket() == bucket@,
            sink.spec_key() == key@,
            sink@ == (SinkView {
                threshold: threshold as int,
                state: SinkState::Idle,
                buffer: Seq::empty(),
                upload_id: None,
                parts: Seq::empty(),
                accepted: Seq::empty(),
                requests: Seq::empty(),
                responses: Seq::empty(),
            }),
    {
        let buffer: Vec<u8> = Vec::new();
        let parts: Vec<UploadPart> = Vec::new();
        let record = Ghost(
            SinkView {
                threshold: threshold as int,
                state: SinkState::Idle,
                buffer: Seq::empty(),
                upload_id: None,
                parts: Seq::empty(),
                accepted: Seq::empty(),
                requests: Seq::empty(),
                responses: Seq::empty(),
            },
        );
        let sink = MultipartUploadSink {
            bucket,
            key,
            threshold,
            buffer,
            upload_id: None,
            parts,
            completion_sent: false,
            state: SinkState::Idle,
            record,
        };
        assert(sink@.buffer =~= sink@.accepted.subrange(0, 0));
        sink
    }

    /// Fails the sink for want of a part number.
    fn fail_for_overflow(&mut self)
        requires
            old(self).coherent(),
            old(self)@.state is Idle,
        ensures
            final(self).wf(),
            final(self)@.state matches SinkState::Failed(SinkError::UploadPart(m)) && m@
                == part_overflow_message(),
            final(self)@ == (SinkView { state: final(self)@.state, ..old(self)@ }),
    {
        self.state = SinkState::Failed(
            SinkError::UploadPart(String::from_str("part number out of range")),
        );
        self.record = Ghost(SinkView { state: self.state, ..self.record@ });
    }

    /// Hands out the first `len` buffered bytes as the next part.
    fn start_part_upload(&mut self, len: usize, closing: bool) -> (request: Option<SinkRequest>)
        requires
            old(self).coherent(),
            old(self)@.state is Idle,
            old(self)@.upload_id is Some,
            0 < len <= old(self)@.buffer.len(),
            if closing {
                len == old(self)@.buffer.len() && len < old(self)@.threshold
            } else {
                len == old(self)@.threshold
            },
        ensures
            final(self).wf(),
            old(self)@.part_started(
                old(self)@.upload_id.unwrap(),
                len as int,
                if closing {
                    SinkState::CompletingUpload
                } else {
                    SinkState::UploadingPart
                },
                final(self)@,
                request,
            ),
    {
        if self.parts.len() >= i32::MAX as usize {
            self.fail_for_overflow();
            return None;
        }
        let part_number: i32 = self.parts.len() as i32 + 1;
        let upload_id = self.upload_id.as_ref().unwrap().clone();
        let mut body = self.buffer.split_off(len);
        std::mem::swap(&mut body, &mut self.buffer);
        let ghost mid = self@;
        let ghost next = if closing {
            SinkState::CompletingUpload
        } else {
            SinkState::UploadingPart
        };
        let request = SinkRequest::UploadPart { upload_id, part_number, body };
        self.completion_sent = false;
        self.state = if closing {
            SinkState::CompletingUpload
        } else {
            SinkState::UploadingPart
        };
        self.record = Ghost(
            SinkView {
                state: next,
                buffer: mid.buffer.subrange(len as int, mid.buffer.len() as int),
                requests: mid.requests.push(request),
                ..mid
            },
        );
        proof {
            lemma_part_started_keeps_recorded(
                mid,
                mid.upload_id.unwrap(),
                len as int,
                next,
                self@,
                Some(request),
            );
        }
        Some(request)
    }

    /// Checks the threshold of an idle sink.
    fn pump(&mut self) -> (request: Option<SinkRequest>)
        requires
            old(self).coherent(),
            old(self)@.state is Idle,
        ensures
            final(self).wf(),
            old(self)@.pumped(final(self)@, request),
    {
        if self.buffer.len() < self.threshold {
            return None;
        }
        if self.upload_id.is_none() {
            let ghost mid = self@;
            self.state = SinkState::InitiatingUpload;
            self.record = Ghost(
                SinkView {
                    state: SinkState::InitiatingUpload,
                    requests: mid.requests.push(SinkRequest::CreateUpload),
                    ..mid
                },
            );
            proof {
                lemma_pumped_keeps_inv(mid, self@, Some(SinkRequest::CreateUpload));
            }
            return Some(SinkRequest::CreateUpload);
        }
        let ghost mid = self@;
        let request = self.start_part_upload(self.threshold, false);
        proof {
            lemma_pumped_keeps_inv(mid, self@, request);
        }
        request
    }

    /// Takes `buf` into the buffer, and starts the session or the next part
    /// when the buffer has reached the threshold.
    ///
    /// An idle sink takes every byte. A sink with a request outstanding takes
    /// none (`Busy`), nor does a completed one (`Closed`) or a failed one,
    /// which returns its error again.
    pub fn write(&mut self, buf: &[u8]) -> (result: Result<Written, Rejection>)
        requires
            old(self).wf(),
        ensures
            final(self).wf(),
            old(self)@.write_step(buf@, final(self)@, result),
    {
        match &self.state {
            SinkState::Failed(e) => {
                return Err(Rejection::Failed(e.duplicate()));
            },
            SinkState::Completed => {
                return Err(Rejection::Closed);
            },
            SinkState::Idle => {},
            _ => {
                return Err(Rejection::Busy);
            },
        }
        let ghost pre = self@;
        self.buffer.extend_from_slice(buf);
        self.record = Ghost(
            SinkView { buffer: pre.buffer + buf@, accepted: pre.accepted + buf@, ..pre },
        );
        proof {
            assert(self.buffer@ =~= pre.buffer + buf@);
            lemma_buffering_keeps_recorded(pre, buf@);
        }
        let request = self.pump();
        match &self.state {
            SinkState::Failed(e) => Err(Rejection::Failed(e.duplicate())),
            _ => Ok(Written { accepted: buf.len(), request }),
        }
    }

    /// Fails the sink whose outstanding request was answered by `response`,
    /// which is not the answer that the request calls for.
    fn fail_outstanding(&mut self, response: SinkResponse) -> (error: SinkError)
        requires
            old(self).wf(),
            old(self)@.in_flight(),
            !old(self)@.expects(response),
        ensures
            final(self).wf(),
            old(self)@.respond_step(response, final(self)@, Err(error)),
    {
        let ghost pre = self@;
        let part_in_flight = self.final_part_in_flight();
        let creating = match &self.state {
            SinkState::InitiatingUpload => true,
            _ => false,
        };
        let uploading = part_in_flight || match &self.state {
            SinkState::UploadingPart => true,
            _ => false,
        };
        let message = match response {
            SinkResponse::Failed { message } => message,
            SinkResponse::UploadCreated { upload_id } => if creating {
                String::from_str("No upload ID received")
            } else {
                String::from_str("unexpected response")
            },
            SinkResponse::PartUploaded { etag } => if uploading {
                String::from_str("No ETag in upload part response")
            } else {
                String::from_str("unexpected response")
            },
            SinkResponse::Completed => String::from_str("unexpected response"),
        };
        let error = match &self.state {
            SinkState::InitiatingUpload => SinkError::UploadSession(message),
            SinkState::UploadingPart => SinkError::UploadPart(message),
            _ => if part_in_flight {
                SinkError::UploadPart(message)
            } else {
                SinkError::UploadComplete(message)
            },
        };
        self.state = SinkState::Failed(error.duplicate());
        self.record = Ghost(
            SinkView { state: self.state, responses: pre.responses.push(response), ..pre },
        );
        error
    }

    /// Whether the last part of a closing sink is outstanding.
    fn final_part_in_flight(&self) -> (b: bool)
        requires
            self.wf(),
        ensures
            b == (self@.state is CompletingUpload && self@.requests.last() is UploadPart),
    {
        match &self.state {
            SinkState::CompletingUpload => self.upload_id.is_some() && !self.completion_sent,
            _ => false,
        }
    }

    /// Asks the store to complete the session with the parts acknowledged.
    fn start_complete_upload(&mut self) -> (request: Option<SinkRequest>)
        requires
            old(self).fields_match(),
            old(self)@.upload_id is Some,
            old(self)@.state is Idle || old(self)@.state is CompletingUpload,
            old(self)@.parts == old(self).parts@,
        ensures
            final(self).fields_match(),
            old(self)@.completion_started(final(self)@, request),
    {
        let ghost mid = self@;
        let upload_id = self.upload_id.as_ref().unwrap().clone();
        let mut parts: Vec<UploadPart> = Vec::new();
        std::mem::swap(&mut parts, &mut self.parts);
        let request = SinkRequest::CompleteUpload { upload_id, parts };
        self.completion_sent = true;
        self.state = SinkState::CompletingUpload;
        self.record = Ghost(
            SinkView {
                state: SinkState::CompletingUpload,
                requests: mid.requests.push(request),
                ..mid
            },
        );
        Some(request)
    }

    /// Takes the store's answer to the outstanding request, and hands out the
    /// request that follows from it, if any.
    ///
    /// After the session's creation and after each part the threshold is
    /// checked again. After the last part of a closing sink comes the
    /// completion. An answer of failure, or of another kind than the request
    /// calls for, fails the sink for good.
    pub fn respond(&mut self, response: SinkResponse) -> (result: Result<
        Option<SinkRequest>,
        SinkError,
    >)
        requires
            old(self).wf(),
        ensures
            final(self).wf(),
            old(self)@.respond_step(response, final(self)@, result),
    {
        let ghost pre = self@;
        let part_in_flight = self.final_part_in_flight();
        match &self.state {
            SinkState::Failed(e) => {
                return Err(e.duplicate());
            },
            SinkState::Idle | SinkState::Completed => {
                return Ok(None);
            },
            _ => {},
        }
        let ghost answered = SinkView { responses: pre.responses.push(response), ..pre };
        match (&self.state, response) {
            (
                SinkState::InitiatingUpload,
                SinkResponse::UploadCreated { upload_id: Some(upload_id) },
            ) => {
                self.upload_id = Some(upload_id);
                self.state = SinkState::Idle;
                self.record = Ghost(
                    SinkView { state: SinkState::Idle, upload_id: Some(upload_id), ..answered },
                );
                proof {
                    lemma_session_created_keeps_recorded(pre, upload_id);
                }
                self.pump_to()
            },
            (SinkState::UploadingPart, SinkResponse::PartUploaded { etag: Some(etag) }) => {
                self.acknowledge(etag, Ghost(response));
                self.state = SinkState::Idle;
                self.record = Ghost(SinkView { state: SinkState::Idle, ..self.record@ });
                proof {
                    lemma_part_acknowledged_keeps_recorded(pre, etag);
                }
                self.pump_to()
            },
            (SinkState::CompletingUpload, SinkResponse::PartUploaded { etag: Some(etag) }) => {
                if part_in_flight {
                    self.acknowledge(etag, Ghost(response));
                    let request = self.start_complete_upload();
                    proof {
                        lemma_respond_keeps_inv(pre, response, self@, Ok(request));
                    }
                    Ok(request)
                } else {
                    Err(self.fail_outstanding(SinkResponse::PartUploaded { etag: Some(etag) }))
                }
            },
            (SinkState::CompletingUpload, SinkResponse::Completed) => {
                if part_in_flight {
                    Err(self.fail_outstanding(SinkResponse::Completed))
                } else {
                    self.state = SinkState::Completed;
                    self.record = Ghost(SinkView { state: SinkState::Completed, ..answered });
                    proof {
                        lemma_respond_keeps_inv(pre, response, self@, Ok(None));
                    }
                    Ok(None)
                }
            },
            (_, response) => Err(self.fail_outstanding(response)),
        }
    }

    /// Records the acknowledgement of the outstanding part.
    fn acknowledge(&mut self, etag: String, Ghost(response): Ghost<SinkResponse>)
        requires
            old(self).wf(),
            old(self)@.part_in_flight(),
            response == (SinkResponse::PartUploaded { etag: Some(etag) }),
        ensures
            final(self)@ == (SinkView {
                responses: old(self)@.responses.push(response),
                ..old(self)@
            }).acknowledged(etag),
            final(self)@.parts == final(self).parts@,
            final(self).threshold == old(self).threshold,
            final(self).buffer == old(self).buffer,
            final(self).upload_id == old(self).upload_id,
            final(self).state == old(self).state,
            final(self).completion_sent == old(self).completion_sent,
    {
        proof {
            let id = self@.upload_id.unwrap();
            let count = self@.parts.len() as int + 1;
            assert(self@.part_request_ok(id, count, count));
        }
        let part_number: i32 = self.parts.len() as i32 + 1;
        self.parts.push(UploadPart { part_number, etag });
        self.record = Ghost(
            (SinkView {
                responses: self.record@.responses.push(response),
                ..self.record@
            }).acknowledged(etag),
        );
    }

    /// Checks the threshold of an idle sink, and returns what `respond` does.
    fn pump_to(&mut self) -> (result: Result<Option<SinkRequest>, SinkError>)
        requires
            old(self).coherent(),
            old(self)@.state is Idle,
        ensures
            final(self).wf(),
            old(self)@.pumped_to(final(self)@, result),
    {
        let request = self.pump();
        match &self.state {
            SinkState::Failed(e) => Err(e.duplicate()),
            _ => Ok(request),
        }
    }

    /// Ends the object: hands out the single whole-object write where no
    /// session was started, else the last part or, where nothing is
    /// buffered, the completion.
    ///
    /// A sink with a request outstanding is `Busy`: report the answer and
    /// close again. Closing a completed sink does nothing.
    pub fn close(&mut self) -> (result: Result<Option<SinkRequest>, Rejection>)
        requires
            old(self).wf(),
        ensures
            final(self).wf(),
            old(self)@.close_step(final(self)@, result),
    {
        let ghost pre = self@;
        match &self.state {
            SinkState::Failed(e) => {
                return Err(Rejection::Failed(e.duplicate()));
            },
            SinkState::Completed => {
                return Ok(None);
            },
            SinkState::Idle => {},
            _ => {
                return Err(Rejection::Busy);
            },
        }
        if self.upload_id.is_none() {
            let mut body: Vec<u8> = Vec::new();
            std::mem::swap(&mut body, &mut self.buffer);
            let request = SinkRequest::PutObject { body };
            self.state = SinkState::CompletingUpload;
            self.record = Ghost(
                SinkView {
                    state: SinkState::CompletingUpload,
                    buffer: Seq::empty(),
                    requests: pre.requests.push(request),
                    ..pre
                },
            );
            proof {
                lemma_close_keeps_inv(pre, self@, Ok(Some(request)));
            }
            return Ok(Some(request));
        }
        if self.buffer.len() > 0 {
            let request = self.start_part_upload(self.buffer.len(), true);
            let result = match &self.state {
                SinkState::Failed(e) => Err(Rejection::Failed(e.duplicate())),
                _ => Ok(request),
            };
            proof {
                lemma_close_keeps_inv(pre, self@, result);
            }
            result
        } else {
            let request = self.start_complete_upload();
            proof {
                lemma_close_keeps_inv(pre, self@, Ok(request));
            }
            Ok(request)
        }
    }

    /// Whether everything accepted so far has been dealt with: `Ok` when no
    /// request is outstanding, `Busy` while one is.
    pub fn flush(&self) -> (result: Result<(), Rejection>)
        requires
            self.wf(),
        ensures
            result == self@.flush_result(),
    {
        match &self.state {
            SinkState::Failed(e) => Err(Rejection::Failed(e.duplicate())),
            SinkState::Idle | SinkState::Completed => Ok(()),
            _ => Err(Rejection::Busy),
        }
    }

    /// The state of the sink.
    pub fn state(&self) -> (state: SinkState)
        requires
            self.wf(),
        ensures
            state == self@.state,
    {
        match &self.state {
            SinkState::Idle => SinkState::Idle,
            SinkState::InitiatingUpload => SinkState::InitiatingUpload,
            SinkState::UploadingPart => SinkState::UploadingPart,
            SinkState::CompletingUpload => SinkState::CompletingUpload,
            SinkState::Completed => SinkState::Completed,
            SinkState::Failed(e) => SinkState::Failed(e.duplicate()),
        }
    }

    /// The number of bytes accepted and not yet handed to the store.
    pub fn buffered(&self) -> (len: usize)
        requires
            self.wf(),
        ensures
            len == self@.buffer.len(),
    {
        self.buffer.len()
    }

    /// The part size.
    pub fn threshold(&self) -> (threshold: usize)
        requires
            self.wf(),
        ensures
            threshold == self@.threshold,
    {
        self.threshold
    }

    /// The bucket of the destination object.
    pub fn bucket(&self) -> (bucket: &str)
        ensures
            bucket@ == self.spec_bucket(),
    {
        self.bucket.as_str()
    }

    /// The key of the destination object.
    pub fn key(&self) -> (key: &str)
        ensures
            key@ == self.spec_key(),
    {
        self.key.as_str()
    }
}

} // verus!
