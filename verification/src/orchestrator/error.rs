//! What can go wrong between the testbed tool and a cloud provider.

use vstd::prelude::*;

verus! {

/// A failure reported by, or found in the answer of, a cloud provider.
#[derive(Debug)]
pub enum CloudProviderError {
    /// The provider's tool ended with a failure: its exit code and what it wrote.
    FailureResponseCode(String, String),
    /// The provider answered something that was not expected.
    UnexpectedResponse(String),
}

/// The result of an exchange with a cloud provider.
pub type CloudProviderResult<T> = Result<T, CloudProviderError>;

} // verus!
