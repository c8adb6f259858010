//! The object enumerator: pages of the source listing, filtered by the
//! cutoff.
//!
//! An object is eligible when it was last modified strictly before the
//! cutoff. An entry without a modification time or a size is a fault of the
//! store, and ends the enumeration: a listing that cannot be trusted is not
//! archived in part.

use vstd::prelude::*;

verus! {

/// An entry of a listing page, as the store sent it: each field may be unset.
/// Times are seconds since the epoch.
#[derive(Debug, PartialEq, Eq)]
pub struct ListedObject {
    pub key: Option<String>,
    pub size: Option<i64>,
    pub last_modified: Option<i64>,
}

/// An object to archive.
#[derive(Debug, PartialEq, Eq)]
pub struct ObjectDescriptor {
    pub key: String,
    pub size: u64,
    pub last_modified: i64,
}

/// Why an enumeration ended early.
#[derive(Debug, PartialEq, Eq)]
pub enum ListingError {
    /// The store did not deliver a page.
    PageFailed(String),
    /// An entry has no modification time.
    MissingLastModified,
    /// An entry has no size.
    MissingSize,
    /// An entry has a size below 0.
    NegativeSize,
}

/// The fault of an entry, if it has one.
pub open spec fn entry_fault(entry: ListedObject) -> Option<ListingError> {
    if entry.last_modified is None {
        Some(ListingError::MissingLastModified)
    } else if entry.size is None {
        Some(ListingError::MissingSize)
    } else if entry.size.unwrap() < 0 {
        Some(ListingError::NegativeSize)
    } else {
        None
    }
}

/// The fault of the first entry that has one.
pub open spec fn first_fault(entries: Seq<ListedObject>) -> Option<ListingError>
    decreases entries.len(),
{
    if entries.len() == 0 {
        None
    } else if first_fault(entries.drop_last()) is Some {
        first_fault(entries.drop_last())
    } else {
        entry_fault(entries.last())
    }
}

/// A faultless entry is eligible when it names its object and was last
/// modified strictly before the cutoff.
pub open spec fn is_eligible(entry: ListedObject, cutoff: i64) -> bool {
    entry.key is Some && entry.last_modified is Some && entry.last_modified.unwrap() < cutoff
}

/// The object that a faultless entry describes.
pub open spec fn described(entry: ListedObject) -> ObjectDescriptor {
    ObjectDescriptor {
        key: entry.key.unwrap(),
        size: entry.size.unwrap() as u64,
        last_modified: entry.last_modified.unwrap(),
    }
}

/// The eligible objects among `entries`, in the order of the listing.
pub open spec fn eligible(entries: Seq<ListedObject>, cutoff: i64) -> Seq<ObjectDescriptor>
    decreases entries.len(),
{
    if entries.len() == 0 {
        Seq::empty()
    } else if is_eligible(entries.last(), cutoff) {
        eligible(entries.drop_last(), cutoff).push(described(entries.last()))
    } else {
        eligible(entries.drop_last(), cutoff)
    }
}

/// Every eligible object was last modified strictly before the cutoff, and is
/// what some entry of the listing describes.
pub proof fn lemma_eligible_is_older(entries: Seq<ListedObject>, cutoff: i64)
    ensures
        forall|i: int|
            0 <= i < eligible(entries, cutoff).len() ==> {
                &&& (#[trigger] eligible(entries, cutoff)[i]).last_modified < cutoff
                &&& exists|j: int|
                    0 <= j < entries.len() && is_eligible(#[trigger] entries[j], cutoff)
                        && eligible(entries, cutoff)[i] == described(entries[j])
            },
        eligible(entries, cutoff).len() <= entries.len(),
    decreases entries.len(),
{
    if entries.len() > 0 {
        let front = entries.drop_last();
        lemma_eligible_is_older(front, cutoff);
        assert forall|i: int| 0 <= i < eligible(entries, cutoff).len() implies {
            &&& (#[trigger] eligible(entries, cutoff)[i]).last_modified < cutoff
            &&& exists|j: int|
                0 <= j < entries.len() && is_eligible(#[trigger] entries[j], cutoff) && eligible(
                    entries,
                    cutoff,
                )[i] == described(entries[j])
        } by {
            if i < eligible(front, cutoff).len() {
                let j = choose|j: int|
                    0 <= j < front.len() && is_eligible(#[trigger] front[j], cutoff) && eligible(
                        front,
                        cutoff,
                    )[i] == described(front[j]);
                assert(entries[j] == front[j]);
            } else {
                assert(is_eligible(entries[entries.len() - 1], cutoff));
            }
        }
    }
}

/// The eligible objects of two pages, one after the other, are those of the
/// first page and then those of the second.
pub proof fn lemma_eligible_of_pages(first: Seq<ListedObject>, second: Seq<ListedObject>, cutoff: i64)
    ensures
        eligible(first + second, cutoff) == eligible(first, cutoff) + eligible(second, cutoff),
    decreases second.len(),
{
    if second.len() == 0 {
        assert(first + second == first);
    } else {
        lemma_eligible_of_pages(first, second.drop_last(), cutoff);
        assert((first + second).drop_last() == first + second.drop_last());
        assert((first + second).last() == second.last());
    }
}

/// Checks a page and picks the eligible objects, in the order of the
/// listing. The first faulty entry fails the whole page.
pub fn select_eligible(entries: Vec<ListedObject>, cutoff: i64) -> (result: Result<
    Vec<ObjectDescriptor>,
    ListingError,
>)
    ensures
        match result {
            Ok(objects) => first_fault(entries@) is None && objects@ == eligible(entries@, cutoff),
            Err(error) => first_fault(entries@) == Some(error),
        },
{
    let mut objects: Vec<ObjectDescriptor> = Vec::new();
    for entry in it: entries
        invariant
            first_fault(entries@.take(it.index() as int)) is None,
            objects@ == eligible(entries@.take(it.index() as int), cutoff),
    {
        proof {
            let seen = entries@.take(it.index() + 1);
            assert(seen.drop_last() == entries@.take(it.index() as int));
            assert(seen.last() == entry);
            lemma_fault_stays(seen, entries@);
        }
        let last_modified = match entry.last_modified {
            Some(t) => t,
            None => {
                return Err(ListingError::MissingLastModified);
            },
        };
        let size = match entry.size {
            Some(s) => s,
            None => {
                return Err(ListingError::MissingSize);
            },
        };
        if size < 0 {
            return Err(ListingError::NegativeSize);
        }
        if last_modified < cutoff {
            if let Some(key) = entry.key {
                objects.push(ObjectDescriptor { key, size: size as u64, last_modified });
            }
        }
    }
    proof {
        assert(entries@.take(entries@.len() as int) == entries@);
    }
    Ok(objects)
}

/// The first fault of a listing's front is the first fault of the listing.
proof fn lemma_fault_stays(front: Seq<ListedObject>, entries: Seq<ListedObject>)
    requires
        front.len() <= entries.len(),
        front == entries.take(front.len() as int),
    ensures
        first_fault(front) is Some ==> first_fault(entries) == first_fault(front),
    decreases entries.len() - front.len(),
{
    if front.len() < entries.len() {
        let longer = entries.take(front.len() as int + 1);
        assert(longer.drop_last() == front);
        lemma_fault_stays(longer, entries);
    } else {
        assert(front == entries);
    }
}


impl ListingError {
    /// A copy of this error.
    pub fn duplicate(&self) -> (copy: ListingError)
        ensures
            copy == *self,
    {
        match self {
            ListingError::PageFailed(m) => ListingError::PageFailed(m.clone()),
            ListingError::MissingLastModified => ListingError::MissingLastModified,
            ListingError::MissingSize => ListingError::MissingSize,
            ListingError::NegativeSize => ListingError::NegativeSize,
        }
    }
}

/// A copy of an optional string.
pub fn duplicate_optional(text: &Option<String>) -> (copy: Option<String>)
    ensures
        copy == *text,
{
    match text {
        Some(t) => Some(t.clone()),
        None => None,
    }
}

/// How far an enumeration has come.
#[derive(Debug, PartialEq, Eq)]
pub enum EnumeratorState {
    /// No page has been asked for.
    Start,
    /// The store has more pages, under this continuation token.
    Continue(String),
    /// The store has no more pages.
    Done,
    /// The enumeration ended with this error.
    Failed(ListingError),
}

/// The page to ask the store for.
#[derive(Debug, PartialEq, Eq)]
pub struct ListRequest {
    pub bucket: String,
    pub prefix: Option<String>,
    pub continuation_token: Option<String>,
}

/// An enumerator as the contracts see it.
pub struct EnumeratorView {
    pub bucket: String,
    pub prefix: Option<String>,
    pub cutoff: i64,
    pub state: EnumeratorState,
    /// The entries of the pages taken so far, in the order of the listing.
    pub listed: Seq<ListedObject>,
}

impl EnumeratorView {
    /// The page to ask for next, if the enumeration goes on.
    pub open spec fn next_request(self) -> Option<ListRequest> {
        match self.state {
            EnumeratorState::Start => Some(
                ListRequest { bucket: self.bucket, prefix: self.prefix, continuation_token: None },
            ),
            EnumeratorState::Continue(token) => Some(
                ListRequest {
                    bucket: self.bucket,
                    prefix: self.prefix,
                    continuation_token: Some(token),
                },
            ),
            _ => None,
        }
    }

    /// The enumeration goes on.
    pub open spec fn is_open(self) -> bool {
        self.state is Start || self.state is Continue
    }

    /// The enumerator after a page of `entries`, which the store followed by
    /// `next_token`: failed if an entry is faulty, else on to the next page,
    /// or done after the last. An enumerator that has ended stays as it is.
    pub open spec fn after_page(
        self,
        entries: Seq<ListedObject>,
        next_token: Option<String>,
    ) -> EnumeratorView {
        if !self.is_open() {
            self
        } else {
            match first_fault(entries) {
                Some(error) => EnumeratorView { state: EnumeratorState::Failed(error), ..self },
                None => EnumeratorView {
                    state: match next_token {
                        Some(token) => EnumeratorState::Continue(token),
                        None => EnumeratorState::Done,
                    },
                    listed: self.listed + entries,
                    ..self
                },
            }
        }
    }

    /// What a page of `entries` yields: its eligible objects; nothing once
    /// the enumeration is done; the error of an enumeration that failed, or
    /// that fails on this page.
    pub open spec fn page_yield(self, entries: Seq<ListedObject>) -> Result<
        Seq<ObjectDescriptor>,
        ListingError,
    > {
        match self.state {
            EnumeratorState::Failed(error) => Err(error),
            EnumeratorState::Done => Ok(Seq::empty()),
            _ => match first_fault(entries) {
                Some(error) => Err(error),
                None => Ok(eligible(entries, self.cutoff)),
            },
        }
    }
}

/// The enumerator of one source location: it says which page to ask for, and
/// filters the pages that come back.
pub struct Enumerator {
    bucket: String,
    prefix: Option<String>,
    cutoff: i64,
    state: EnumeratorState,
    listed: Ghost<Seq<ListedObject>>,
}

impl View for Enumerator {
    type V = EnumeratorView;

    closed spec fn view(&self) -> EnumeratorView {
        EnumeratorView {
            bucket: self.bucket,
            prefix: self.prefix,
            cutoff: self.cutoff,
            state: self.state,
            listed: self.listed@,
        }
    }
}

impl Enumerator {
    /// An enumerator of the objects of `bucket` under `prefix` that were last
    /// modified before `cutoff`.
    pub fn new(bucket: String, prefix: Option<String>, cutoff: i64) -> (enumerator: Enumerator)
        ensures
            enumerator@ == (EnumeratorView {
                bucket,
                prefix,
                cutoff,
                state: EnumeratorState::Start,
                listed: Seq::empty(),
            }),
    {
        Enumerator { bucket, prefix, cutoff, state: EnumeratorState::Start, listed: Ghost(Seq::empty()) }
    }

    /// The page to ask the store for, or `None` when the enumeration has
    /// ended.
    pub fn next_request(&self) -> (request: Option<ListRequest>)
        ensures
            request == self@.next_request(),
    {
        let continuation_token = match &self.state {
            EnumeratorState::Start => None,
            EnumeratorState::Continue(token) => Some(token.clone()),
            _ => {
                return None;
            },
        };
        Some(
            ListRequest {
                bucket: self.bucket.clone(),
                prefix: duplicate_optional(&self.prefix),
                continuation_token,
            },
        )
    }

    /// Takes the page that the store delivered, and yields its eligible
    /// objects in the order of the listing.
    pub fn page_listed(&mut self, entries: Vec<ListedObject>, next_token: Option<String>) -> (result:
        Result<Vec<ObjectDescriptor>, ListingError>)
        ensures
            final(self)@ == old(self)@.after_page(entries@, next_token),
            match result {
                Ok(objects) => old(self)@.page_yield(entries@) == Ok::<
                    Seq<ObjectDescriptor>,
                    ListingError,
                >(objects@),
                Err(error) => old(self)@.page_yield(entries@) == Err::<
                    Seq<ObjectDescriptor>,
                    ListingError,
                >(error),
            },
    {
        match &self.state {
            EnumeratorState::Failed(error) => {
                return Err(error.duplicate());
            },
            EnumeratorState::Done => {
                return Ok(Vec::new());
            },
            _ => {},
        }
        match select_eligible(entries, self.cutoff) {
            Ok(objects) => {
                self.state = match next_token {
                    Some(token) => EnumeratorState::Continue(token),
                    None => EnumeratorState::Done,
                };
                self.listed = Ghost(self.listed@ + entries@);
                Ok(objects)
            },
            Err(error) => {
                self.state = EnumeratorState::Failed(error.duplicate());
                Err(error)
            },
        }
    }

    /// Ends the enumeration, because the store did not deliver the page. An
    /// enumeration that has ended before stays as it is.
    pub fn page_failed(&mut self, message: String) -> (error: ListingError)
        ensures
            old(self)@.state matches EnumeratorState::Failed(e) ==> error == e && final(self)@
                == old(self)@,
            !(old(self)@.state is Failed) ==> error == ListingError::PageFailed(message)
                && final(self)@ == (EnumeratorView {
                state: EnumeratorState::Failed(error),
                ..old(self)@
            }),
    {
        match &self.state {
            EnumeratorState::Failed(error) => error.duplicate(),
            _ => {
                self.state = EnumeratorState::Failed(ListingError::PageFailed(message.clone()));
                ListingError::PageFailed(message)
            },
        }
    }

    /// How far the enumeration has come.
    pub fn state(&self) -> (state: EnumeratorState)
        ensures
            state == self@.state,
    {
        match &self.state {
            EnumeratorState::Start => EnumeratorState::Start,
            EnumeratorState::Continue(token) => EnumeratorState::Continue(token.clone()),
            EnumeratorState::Done => EnumeratorState::Done,
            EnumeratorState::Failed(error) => EnumeratorState::Failed(error.duplicate()),
        }
    }
}

} // verus!
