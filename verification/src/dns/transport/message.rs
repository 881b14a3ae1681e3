//! Messages on transports that leave the identifier out.
use vstd::prelude::*;

use crate::dns::wire::slice_to_vec;

verus! {

/// The message with its identifier set; one too short for an identifier as it is.
pub open spec fn identified(message: Seq<u8>, id: (u8, u8)) -> Seq<u8> {
    if message.len() >= 2 {
        message.update(0, id.0).update(1, id.1)
    } else {
        message
    }
}

/// The message's identifier; zero for one too short to have one.
pub open spec fn identifier(message: Seq<u8>) -> (u8, u8) {
    if message.len() >= 2 {
        (message[0], message[1])
    } else {
        (0, 0)
    }
}

/// The query with identifier zero, and the identifier it had.
pub fn zero_id(query: &[u8]) -> (res: (Vec<u8>, (u8, u8)))
    ensures
        res.0@ == identified(query@, (0, 0)),
        res.1 == identifier(query@),
{
    let mut bytes: Vec<u8> = slice_to_vec(query, 0, query.len());
    assert(bytes@ =~= query@);
    if query.len() < 2 {
        return (bytes, (0, 0));
    }
    let id: (u8, u8) = (query[0], query[1]);
    bytes.set(0, 0);
    bytes.set(1, 0);
    (bytes, id)
}

/// The response under the client's identifier.
pub fn restore_id(response: Vec<u8>, id: (u8, u8)) -> (res: Vec<u8>)
    ensures
        res@ == identified(response@, id),
{
    let mut bytes: Vec<u8> = response;
    if bytes.len() >= 2 {
        bytes.set(0, id.0);
        bytes.set(1, id.1);
    }
    bytes
}

/// Giving a message its identifier back undoes taking it away.
pub proof fn law_identifier_restored(message: Seq<u8>)
    ensures
        identified(identified(message, (0, 0)), identifier(message)) == message,
{
    assert(identified(identified(message, (0, 0)), identifier(message)) =~= message);
}

} // verus!
