//! The two roles of a connection, and what each owes the other in masking.
//!
//! A client masks every frame it sends, each with a key of its own, and
//! expects what it receives to be unmasked. A server is the reverse.

use vstd::prelude::*;

verus! {

/// What a role decides. The role is a type, never a value: a stream is
/// built for one role and the choice costs nothing when it runs.
pub trait RoleHelper {
    /// Whether frames sent in this role are masked.
    spec fn masks_outgoing() -> bool;

    /// Whether frames received in this role have to be masked. A frame
    /// whose mask flag differs from this is a protocol violation.
    spec fn expects_masked() -> bool;

    fn wants_mask_outgoing() -> (b: bool)
        ensures
            b == Self::masks_outgoing(),
    ;

    fn requires_mask_incoming() -> (b: bool)
        ensures
            b == Self::expects_masked(),
    ;

    /// The mask for the next frame to send: a fresh key where this role
    /// masks, nothing where it does not.
    fn new_write_mask() -> (mask: Option<[u8; 4]>)
        ensures
            mask.is_some() == Self::masks_outgoing(),
    ;
}

/// The side that opened the connection.
#[derive(Clone, Copy, Debug)]
pub struct Client;

/// The side that accepted the connection.
#[derive(Clone, Copy, Debug)]
pub struct Server;

/// Four random bytes from `rand::random`, which draws them from the
/// thread's generator. Nothing is claimed of them: any four bytes are a
/// key. The generator is seeded from the operating system on first use
/// and stops the program if that fails.
#[verifier::external_body]
fn random_key() -> (key: [u8; 4]) {
    rand::random::<[u8; 4]>()
}

impl RoleHelper for Client {
    open spec fn masks_outgoing() -> bool {
        true
    }

    open spec fn expects_masked() -> bool {
        false
    }

    fn wants_mask_outgoing() -> (b: bool) {
        true
    }

    fn requires_mask_incoming() -> (b: bool) {
        false
    }

    fn new_write_mask() -> (mask: Option<[u8; 4]>) {
        Some(random_key())
    }
}

impl RoleHelper for Server {
    open spec fn masks_outgoing() -> bool {
        false
    }

    open spec fn expects_masked() -> bool {
        true
    }

    fn wants_mask_outgoing() -> (b: bool) {
        false
    }

    fn requires_mask_incoming() -> (b: bool) {
        true
    }

    fn new_write_mask() -> (mask: Option<[u8; 4]>) {
        None
    }
}

/// The two roles face each other: what one sends is masked exactly when
/// the other expects it to be. Neither accepts what its own kind sends.
pub proof fn lemma_roles_face_each_other()
    ensures
        Client::masks_outgoing() == Server::expects_masked(),
        Server::masks_outgoing() == Client::expects_masked(),
        Client::masks_outgoing() != Client::expects_masked(),
        Server::masks_outgoing() != Server::expects_masked(),
{
}

} // verus!
