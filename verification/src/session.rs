//! Session state: connection identity and sequence state. Created at client
//! construction and reset on every reconnect.

use vstd::prelude::*;

verus! {

/// Record of connection identity and sequence state. `connected` becomes true
/// only after a successful, non-resumed handshake acknowledgment; the packet
/// identifier advances only after a matching acknowledgment is validated.
pub struct SessionState {
    /// Bounded client identifier, sent in the handshake frame.
    pub client_id: Vec<u8>,
    /// Keep-alive interval in seconds, sent in the handshake frame.
    pub keep_alive_interval: u16,
    /// True exactly while the protocol handshake has been acknowledged.
    pub connected: bool,
    /// Next outgoing packet identifier; never zero.
    pub packet_identifier: u16,
}

/// The packet identifier that follows `id`: identifiers advance by one and
/// wrap around zero, which the wire format reserves.
pub open spec fn next_identifier(id: u16) -> u16 {
    if id == 0xffff {
        1u16
    } else {
        (id + 1) as u16
    }
}

impl SessionState {
    /// The identifier sequence never visits zero.
    pub open spec fn wf(self) -> bool {
        self.packet_identifier != 0
    }

    /// Identity fields, which every transition of the state machine preserves.
    pub open spec fn identity(self) -> (Seq<u8>, u16) {
        (self.client_id@, self.keep_alive_interval)
    }

    pub fn new(client_id: Vec<u8>, keep_alive_interval: u16) -> (r: SessionState)
        ensures
            r.wf(),
            r.client_id@ == client_id@,
            r.keep_alive_interval == keep_alive_interval,
            !r.connected,
            r.packet_identifier == 1,
    {
        SessionState { client_id, keep_alive_interval, connected: false, packet_identifier: 1 }
    }

    /// Returns the session to its initial, unconnected state while keeping
    /// its identity; used on every reconnect.
    pub fn reset(&mut self)
        ensures
            final (self).wf(),
            final (self).client_id == old(self).client_id,
            final (self).keep_alive_interval == old(self).keep_alive_interval,
            final (self).identity() == old(self).identity(),
            !final (self).connected,
            final (self).packet_identifier == 1,
    {
        self.connected = false;
        self.packet_identifier = 1;
    }

    pub fn get_packet_identifier(&self) -> (r: u16)
        ensures
            r == self.packet_identifier,
    {
        self.packet_identifier
    }

    /// Advances the identifier after a validated acknowledgment.
    pub fn increment_packet_identifier(&mut self)
        ensures
            final (self).packet_identifier == next_identifier(old(self).packet_identifier),
            final (self).client_id == old(self).client_id,
            final (self).keep_alive_interval == old(self).keep_alive_interval,
            final (self).identity() == old(self).identity(),
            final (self).connected == old(self).connected,
            final (self).wf(),
    {
        if self.packet_identifier == 0xffff {
            self.packet_identifier = 1;
        } else {
            self.packet_identifier = self.packet_identifier + 1;
        }
    }
}

} // verus!
