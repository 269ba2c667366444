//! The unforgeable name of one live session.

use vstd::prelude::*;

use crate::ids;
use crate::ids::SessionId;

verus! {

/// Bytes of a capability.
pub const CAPABILITY_BYTES: usize = 32;

/// The error of the system's random number source.
#[verifier::external_type_specification]
#[verifier::external_body]
pub struct ExEntropyFailure(getrandom::Error);

/// The unforgeable name of one live session. The identifier is public, so a resume is
/// authenticated by the capability, of which only a hash is ever persisted.
#[derive(Clone, Debug, PartialEq, Eq)]
pub struct SessionTicket {
    pub session_id: SessionId,
    pub capability: [u8; CAPABILITY_BYTES],
}

/// `getrandom::fill`: fills `dest` with random bytes. Which bytes come is left open, as is
/// what `dest` holds where the source failed.
#[verifier::external_body]
pub(crate) fn fill<const N: usize>(dest: &mut [u8; N]) -> (filled: Result<(), getrandom::Error>) {
    getrandom::fill(dest)
}

impl SessionTicket {
    /// The ticket made of these bytes.
    pub open spec fn made_of(self, id: Seq<u8>, capability: Seq<u8>) -> bool {
        self.session_id.0 == ids::number_of(id) && self.capability@ == capability
    }

    /// The ticket of the bytes drawn, or why the first of the two draws that failed did.
    pub fn drawn(id: Result<[u8; 16], getrandom::Error>, capability: Result<[u8; CAPABILITY_BYTES], getrandom::Error>) -> (ticket: Result<Self, getrandom::Error>)
        ensures
            match (id, capability) {
                (Ok(id), Ok(capability)) => ticket matches Ok(ticket) && ticket.made_of(id@, capability@),
                (Err(why), _) => ticket == Err::<Self, getrandom::Error>(why),
                (Ok(_), Err(why)) => ticket == Err::<Self, getrandom::Error>(why),
            },
    {
        match (id, capability) {
            (Ok(id), Ok(capability)) => Ok(SessionTicket { session_id: SessionId::from_bytes(id), capability }),
            (Err(why), _) => Err(why),
            (Ok(_), Err(why)) => Err(why),
        }
    }

    /// Issue a ticket: whatever was drawn, it is made of sixteen bytes and of
    /// [`CAPABILITY_BYTES`]. Where the system gave none, its own error says why.
    pub fn issue() -> (ticket: Result<Self, getrandom::Error>)
        ensures
            ticket matches Ok(ticket) ==> exists|id: Seq<u8>, capability: Seq<u8>| id.len() == 16 && capability.len()
                == CAPABILITY_BYTES && #[trigger] ticket.made_of(id, capability),
    {
        let mut id: [u8; 16] = [0; 16];
        let mut capability: [u8; CAPABILITY_BYTES] = [0; CAPABILITY_BYTES];
        match fill(&mut id) {
            Ok(_) => {},
            Err(why) => return Err(why),
        }
        match fill(&mut capability) {
            Ok(_) => {},
            Err(why) => return SessionTicket::drawn(Ok(id), Err(why)),
        }
        let ticket = SessionTicket::drawn(Ok(id), Ok(capability));
        assert(ticket->Ok_0.made_of(id@, capability@));
        ticket
    }
}

/// A ticket tells its draws apart: its identifier counts the first from the left, and its
/// capability is the second, byte for byte.
pub proof fn a_ticket_is_its_draws(ticket: SessionTicket, id: Seq<u8>, capability: Seq<u8>)
    requires
        ticket.made_of(id, capability),
        id.len() == 16,
    ensures
        ticket.capability@ == capability,
        ticket.session_id.0 == ids::number_of(id.take(15)) * 256 + id[15],
{
    assert(id.drop_last() =~= id.take(15));
}

} // verus!
