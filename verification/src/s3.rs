//! Connection parameters of the object store.

use vstd::prelude::*;
use vstd::string::StringExecFns;

verus! {

/// Region used when none is configured.
pub open spec fn default_region() -> Seq<char> {
    "us-east-1"@
}

/// What a client of the object store is configured with.
pub struct S3Params {
    region: String,
    access_key: String,
    secret_key: String,
    endpoint: Option<String>,
}

impl S3Params {
    pub closed spec fn spec_region(&self) -> Seq<char> {
        self.region@
    }

    pub closed spec fn spec_access_key(&self) -> Seq<char> {
        self.access_key@
    }

    pub closed spec fn spec_secret_key(&self) -> Seq<char> {
        self.secret_key@
    }

    pub closed spec fn spec_endpoint(&self) -> Option<Seq<char>> {
        match self.endpoint {
            Some(e) => Some(e@),
            None => None,
        }
    }

    /// The region of the store.
    pub fn region(&self) -> (region: &str)
        ensures
            region@ == self.spec_region(),
    {
        self.region.as_str()
    }

    /// The access key.
    pub fn access_key(&self) -> (key: &str)
        ensures
            key@ == self.spec_access_key(),
    {
        self.access_key.as_str()
    }

    /// The secret key.
    pub fn secret_key(&self) -> (key: &str)
        ensures
            key@ == self.spec_secret_key(),
    {
        self.secret_key.as_str()
    }

    /// The endpoint, where the store is not the default one of the region.
    pub fn endpoint(&self) -> (endpoint: Option<&str>)
        ensures
            match endpoint {
                Some(e) => self.spec_endpoint() == Some(e@),
                None => self.spec_endpoint() is None,
            },
    {
        match &self.endpoint {
            Some(e) => Some(e.as_str()),
            None => None,
        }
    }
}

/// Builds the parameters from what the environment holds: the region falls
/// back to the default one, the endpoint stays optional.
pub fn get_s3_params(
    region: Option<String>,
    endpoint: Option<String>,
    access_key: String,
    secret_key: String,
) -> (params: S3Params)
    ensures
        params.spec_region() == (match region {
            Some(r) => r@,
            None => default_region(),
        }),
        params.spec_endpoint() == (match endpoint {
            Some(e) => Some(e@),
            None => None,
        }),
        params.spec_access_key() == access_key@,
        params.spec_secret_key() == secret_key@,
{
    let region = match region {
        Some(r) => r,
        None => String::from_str("us-east-1"),
    };
    S3Params { region, access_key, secret_key, endpoint }
}

} // verus!
