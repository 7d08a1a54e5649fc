use crate::client::FiestaPacket;
use vstd::prelude::*;

verus! {

/// One processing job: a decoded packet and the identifier of the connection
/// it came from.
pub struct PacketProcessingInfo {
    pub packet: FiestaPacket,
    pub client: usize,
}

} // verus!
