//! Outside types that values of this library carry through unexamined.
use vstd::prelude::*;
use reqwest::Error as NetworkFailure;
use std::io::Error as IoFailure;

verus! {

/// Declares `reqwest::Error` so that a network failure can be carried in [`Error`].
#[verifier::external_type_specification]
#[verifier::external_body]
pub struct ExNetworkError(NetworkFailure);

/// Declares `std::io::Error` so that a file failure can be carried in [`Error`].
#[verifier::external_type_specification]
#[verifier::external_body]
pub struct ExIoError(IoFailure);

/// Declares `std::time::Instant` so that the moments a download started and
/// last received bytes can be recorded in its progress.
#[verifier::external_type_specification]
#[verifier::external_body]
pub struct ExInstant(std::time::Instant);

} // verus!
