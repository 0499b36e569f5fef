//! Failures of the outside world as failures of the database.

use vstd::prelude::*;
use crate::Error;

verus! {

#[verifier::external_type_specification]
#[verifier::external_body]
pub struct ExIoError(std::io::Error);

impl From<std::io::Error> for Error {
    fn from(_e: std::io::Error) -> (r: Error) {
        Error::IoError
    }
}

impl vstd::std_specs::convert::FromSpecImpl<std::io::Error> for Error {
    open spec fn obeys_from_spec() -> bool {
        true
    }

    open spec fn from_spec(_e: std::io::Error) -> Error {
        Error::IoError
    }
}

} // verus!
