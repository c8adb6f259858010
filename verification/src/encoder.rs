//! The archive encoder's part in an entry: the header that goes before an
//! object's bytes, and the check that the bytes were as many as the header
//! declares.
//!
//! The container is a tar archive; its headers are built by `tokio_tar`.

use crate::listing::ObjectDescriptor;
use tokio_tar::Header;
use vstd::prelude::*;

verus! {

/// The permission bits of every entry.
pub const ENTRY_MODE: u32 = 0o644;

/// The length of a header block.
pub const HEADER_LEN: usize = 512;

/// Why an entry could not be encoded.
#[derive(Debug, PartialEq, Eq)]
pub enum EncodingError {
    /// The object was last modified before the epoch, which a header cannot
    /// hold.
    NegativeTimestamp,
    /// The object's bytes were not as many as its header declares.
    SizeMismatch { declared: u64, streamed: u64 },
    /// The encoder or the sink under it failed.
    Failed(String),
}

/// The header block that `tokio_tar` builds for an entry of this size, mode
/// and modification time, before the entry's path is set.
pub uninterp spec fn gnu_header(size: u64, mode: u32, mtime: u64) -> Seq<u8>;

/// Builds a header with `tokio_tar`: `Header::new_gnu`, then `set_size`,
/// `set_mode`, `set_mtime` and `set_cksum`, and returns what `as_bytes`
/// gives. Claimed: the block is `gnu_header` of the three values, and has
/// the 512 bytes of every tar header.
#[verifier::external_body]
fn gnu_header_block(size: u64, mode: u32, mtime: u64) -> (block: Vec<u8>)
    ensures
        block@ == gnu_header(size, mode, mtime),
        block@.len() == 512,
{
    let mut header = Header::new_gnu();
    header.set_size(size);
    header.set_mode(mode);
    header.set_mtime(mtime);
    header.set_cksum();
    header.as_bytes().to_vec()
}

/// The header of the entry for `object`: its size as the declared length,
/// the fixed permission bits, and its modification time as the entry's time.
/// The entry's name, the object's key, is set when the entry is appended.
pub fn entry_header(object: &ObjectDescriptor) -> (result: Result<Vec<u8>, EncodingError>)
    ensures
        match result {
            Ok(block) => {
                &&& object.last_modified >= 0
                &&& block@ == gnu_header(object.size, ENTRY_MODE, object.last_modified as u64)
                &&& block@.len() == HEADER_LEN
            },
            Err(error) => object.last_modified < 0 && error == EncodingError::NegativeTimestamp,
        },
{
    if object.last_modified < 0 {
        return Err(EncodingError::NegativeTimestamp);
    }
    Ok(gnu_header_block(object.size, ENTRY_MODE, object.last_modified as u64))
}

/// An entry is whole when as many bytes were streamed as its header
/// declares.
pub fn check_entry(declared: u64, streamed: u64) -> (result: Result<(), EncodingError>)
    ensures
        declared == streamed ==> result == Ok::<(), EncodingError>(()),
        declared != streamed ==> result == Err::<(), EncodingError>(
            EncodingError::SizeMismatch { declared, streamed },
        ),
{
    if declared == streamed {
        Ok(())
    } else {
        Err(EncodingError::SizeMismatch { declared, streamed })
    }
}

impl EncodingError {
    /// A copy of this error.
    pub fn duplicate(&self) -> (copy: EncodingError)
        ensures
            copy == *self,
    {
        match self {
            EncodingError::NegativeTimestamp => EncodingError::NegativeTimestamp,
            EncodingError::SizeMismatch { declared, streamed } => EncodingError::SizeMismatch {
                declared: *declared,
                streamed: *streamed,
            },
            EncodingError::Failed(m) => EncodingError::Failed(m.clone()),
        }
    }
}

} // verus!
