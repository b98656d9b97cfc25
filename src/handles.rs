//! Declarations of the I/O handles that requests and responses carry through the
//! library. The library never reads from or writes to them: the server loop does.
use vstd::prelude::*;

verus! {

/// The read half of an accepted TCP connection, carried by a chunked request body.
#[verifier::external_type_specification]
#[verifier::external_body]
pub struct ExOwnedReadHalf(tokio::net::tcp::OwnedReadHalf);

/// An open file, carried by a streamed response body.
#[verifier::external_type_specification]
#[verifier::external_body]
pub struct ExFile(tokio::fs::File);

} // verus!
