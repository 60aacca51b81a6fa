//! Status events a peer session reports back to the torrent instance.
use vstd::prelude::*;

verus! {

/// What a session tells the instance: a piece a peer announced, a DHT
/// port, or a message it does not act on.
#[derive(Debug)]
pub enum Signal {
    Have(usize),
    Port(u16),
    Unknown,
}

} // verus!
