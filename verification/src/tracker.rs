//! The UDP tracker handshake: the fixed-layout connect request and the
//! parsing of its response. The socket itself is driven by the unverified
//! shell; this type holds the connection id the tracker assigned.
use crate::wire::push_be32;
use crate::wire::push_be64;
use crate::wire::read_be32;
use crate::wire::read_be64;
use crate::wire::spec_be32;
use crate::wire::spec_be32_val;
use crate::wire::spec_be64;
use crate::wire::spec_be64_val;
use vstd::prelude::*;

verus! {

/// The fixed protocol id that opens every connect request.
pub const CONNECT_PROTOCOL_ID: u64 = 0x41727101980;

/// The 16 bytes of a connect request: protocol id, action 0, and the
/// caller's transaction id, all big-endian.
pub open spec fn spec_connect_request(transaction_id: u32) -> Seq<u8> {
    spec_be64(0x41727101980u64) + spec_be32(0u32) + spec_be32(transaction_id)
}

/// Tracker handshake state.
pub struct Tracker {
    connection_id: Option<u64>,
}

impl Tracker {
    pub closed spec fn spec_connection_id(self) -> Option<u64> {
        self.connection_id
    }

    pub fn new() -> (r: Self)
        ensures
            r.spec_connection_id() is None,
    {
        Self { connection_id: None }
    }

    /// Build the connect request around a transaction id the shell drew.
    pub fn connect_request_bytes(transaction_id: u32) -> (r: Vec<u8>)
        ensures
            r@ == spec_connect_request(transaction_id),
            r@.len() == 16,
    {
        let mut out: Vec<u8> = Vec::new();
        push_be64(&mut out, CONNECT_PROTOCOL_ID);
        push_be32(&mut out, 0);
        push_be32(&mut out, transaction_id);
        proof {
            assert(out@ =~= spec_connect_request(transaction_id));
        }
        out
    }

    /// Read a connect response: action, transaction id, connection id.
    /// The connection id is kept exactly when the packet is long enough,
    /// the action is `connect` and the transaction id is ours.
    pub fn apply_connect_response(&mut self, data: &Vec<u8>, transaction_id: u32) -> (r: bool)
        ensures
            r == (data@.len() >= 16 && spec_be32_val(data@[0], data@[1], data@[2], data@[3]) == 0
                && spec_be32_val(data@[4], data@[5], data@[6], data@[7]) == transaction_id),
            r ==> final(self).spec_connection_id() == Some(
                spec_be64_val(
                    data@[8],
                    data@[9],
                    data@[10],
                    data@[11],
                    data@[12],
                    data@[13],
                    data@[14],
                    data@[15],
                ),
            ),
            !r ==> *final(self) == *old(self),
    {
        if data.len() < 16 {
            return false;
        }
        let action = read_be32(data, 0);
        let tid = read_be32(data, 4);
        if action != 0 || tid != transaction_id {
            return false;
        }
        let cid = read_be64(data, 8);
        self.connection_id = Some(cid);
        true
    }

    pub fn get_connection_id(&self) -> (r: Option<u64>)
        ensures
            r == self.spec_connection_id(),
    {
        self.connection_id
    }
}

} // verus!
