//! Inbound/outbound classification.
//!
//! If the packet's source address is one of the local addresses bound to the capture
//! interface, the packet is outbound; otherwise, if its destination is local, it is
//! inbound. Anything else is unknown (broadcast/multicast, or two non-local hosts).
use vstd::prelude::*;

use crate::text::{text_set, texts_contain};
use crate::types::Direction;

verus! {

/// The set of local addresses of the capture interface.
#[derive(Debug, Default)]
pub struct DirectionResolver {
    local_ips: Vec<String>,
}

/// The direction of a packet given whether its source and destination are local.
pub open spec fn direction_of(src_local: bool, dst_local: bool) -> Direction {
    if src_local {
        Direction::Outbound
    } else if dst_local {
        Direction::Inbound
    } else {
        Direction::Unknown
    }
}

impl DirectionResolver {
    /// The local addresses, as texts.
    pub closed spec fn locals(&self) -> Set<Seq<char>> {
        text_set(self.local_ips@)
    }

    /// A resolver that treats exactly the given addresses as local.
    pub fn new(local_ips: Vec<String>) -> (res: Self)
        ensures
            res.locals() == text_set(local_ips@),
    {
        DirectionResolver { local_ips }
    }

    /// Whether `ip` is one of the local addresses.
    pub fn is_local(&self, ip: &str) -> (res: bool)
        ensures
            res == self.locals().contains(ip@),
    {
        texts_contain(&self.local_ips, ip)
    }

    /// Outbound when the source is local, else inbound when the destination is local,
    /// else unknown.
    pub fn classify(&self, src_ip: &str, dst_ip: &str) -> (res: Direction)
        ensures
            res == direction_of(self.locals().contains(src_ip@), self.locals().contains(dst_ip@)),
    {
        let src_local = self.is_local(src_ip);
        let dst_local = self.is_local(dst_ip);
        match (src_local, dst_local) {
            (true, _) => Direction::Outbound,
            (false, true) => Direction::Inbound,
            _ => Direction::Unknown,
        }
    }
}

} // verus!
