//! What a datagram transport counts.
//!
//! Every datagram is exactly one packet long. Anything else is not ours and is dropped
//! without reply: a transport that answers differently depending on whether it liked what it
//! received is an enumeration oracle. Drops are counted, never answered.
use vstd::prelude::*;
use crate::provider::sat_inc;

verus! {

#[derive(Debug, Clone, Copy, PartialEq, Eq)]
pub struct WireStats {
    pub sent: u64,
    pub received: u64,
    /// Datagrams of the wrong length. Counted, never answered.
    pub wrong_size: u64,
    pub undecodable: u64,
}

impl WireStats {
    pub open spec fn zero() -> WireStats {
        WireStats { sent: 0, received: 0, wrong_size: 0, undecodable: 0 }
    }

    /// A datagram was sent.
    pub fn note_sent(&mut self)
        ensures
            *final(self) == (WireStats { sent: sat_inc(old(self).sent), ..*old(self) }),
    {
        self.sent = if self.sent == u64::MAX {
            u64::MAX
        } else {
            self.sent + 1
        };
    }

    /// A datagram of `len` bytes arrived, where a packet is `packet_bytes` long and `decodes`
    /// says whether its bytes decode as a packet. Returns whether it is to be taken; nothing
    /// else about it changes what the transport does.
    pub fn note_received(&mut self, len: usize, packet_bytes: usize, decodes: bool) -> (take: bool)
        ensures
            take == (len == packet_bytes && decodes),
            final(self).received == sat_inc(old(self).received),
            final(self).sent == old(self).sent,
            final(self).wrong_size == if len != packet_bytes {
                sat_inc(old(self).wrong_size)
            } else {
                old(self).wrong_size
            },
            final(self).undecodable == if len == packet_bytes && !decodes {
                sat_inc(old(self).undecodable)
            } else {
                old(self).undecodable
            },
    {
        self.received = if self.received == u64::MAX {
            u64::MAX
        } else {
            self.received + 1
        };
        if len != packet_bytes {
            self.wrong_size = if self.wrong_size == u64::MAX {
                u64::MAX
            } else {
                self.wrong_size + 1
            };
            return false;
        }
        if !decodes {
            self.undecodable = if self.undecodable == u64::MAX {
                u64::MAX
            } else {
                self.undecodable + 1
            };
            return false;
        }
        true
    }
}

impl Default for WireStats {
    fn default() -> (s: Self)
        ensures
            s == WireStats::zero(),
    {
        WireStats { sent: 0, received: 0, wrong_size: 0, undecodable: 0 }
    }
}

} // verus!
