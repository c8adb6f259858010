//! Archives aging objects of a bucket-style object store: the decisions of the
//! pipeline, each with a proved contract. The transport (listing, fetching,
//! uploading, deleting) belongs to the caller, which performs the requests
//! that these state machines issue and reports what came back.

pub mod s3;
pub mod uploader;
pub mod listing;
pub mod encoder;
pub mod deletion;
pub mod location;
pub mod cutoff;
pub mod archive;
pub mod tokio_to_async;
