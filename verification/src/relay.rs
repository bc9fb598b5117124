//! The per-connection handler and the broadcast dispatcher.
//!
//! Each connection runs through `Connecting`, `Open`, `Closing` and
//! `Closed`. While open, its inbound loop decodes frames and fans them out
//! to every other peer, and its outbound loop drains this peer's own queue
//! back into encoded frames. An undecodable inbound frame is dropped
//! without touching any queue and without ending the connection;
//! deregistration is the closing boundary, after which no broadcast can
//! reach the connection.

use vstd::prelude::*;
use crate::codec::{parse_msg, ser_msg};
use crate::message::{KimchiMessage, MsgV};
use crate::registry::{broadcast_post, Registry};

verus! {

/// Decode one inbound frame from `origin` and, when it denotes a message,
/// deliver it to every other registered peer. A frame that does not
/// decode changes nothing: it is not forwarded to anyone and the caller's
/// connection stays up.
pub fn handle_inbound(reg: &mut Registry, origin: u64, frame: &str) -> (r: Option<KimchiMessage>)
    requires
        old(reg).wf(),
    ensures
        final(reg).wf(),
        match r {
            Some(m) => parse_msg(frame@) == Some(m@) && broadcast_post(
                *old(reg),
                *final(reg),
                origin,
                m@,
            ),
            None => parse_msg(frame@) is None && *final(reg) == *old(reg),
        },
{
    match KimchiMessage::from_str(frame) {
        Some(m) => {
            reg.broadcast(origin, &m);
            Some(m)
        },
        None => None,
    }
}

/// Take the oldest message pending for peer `id` and encode it for the
/// wire: one step of the outbound loop. Yields nothing exactly when the
/// peer's queue is empty.
pub fn next_outbound_frame(reg: &mut Registry, id: u64) -> (r: Option<String>)
    requires
        old(reg).wf(),
    ensures
        final(reg).wf(),
        final(reg).ids() == old(reg).ids(),
        forall|p: u64| p != id ==> final(reg).queue_of(p) == old(reg).queue_of(p),
        match r {
            Some(s) => old(reg).queue_of(id).len() > 0 && s@ == ser_msg(
                old(reg).queue_of(id)[0],
            ) && final(reg).queue_of(id) == old(reg).queue_of(id).drop_first(),
            None => old(reg).queue_of(id).len() == 0 && *final(reg) == *old(reg),
        },
{
    match reg.pop_outbound(id) {
        Some(m) => KimchiMessage::to_str(&m),
        None => None,
    }
}

/// Where a connection stands in its lifecycle.
pub enum ConnPhase {
    Connecting,
    Open,
    Closing,
    Closed,
}

/// One connection's handler state: its identity for the lifetime of the
/// connection, and its lifecycle phase.
pub struct Connection {
    pub id: u64,
    pub phase: ConnPhase,
}

impl Connection {
    /// An open connection is always registered.
    pub open spec fn inv(&self, reg: &Registry) -> bool {
        self.phase is Open ==> reg.contains(self.id)
    }

    /// A connection whose transport handshake succeeded; nothing is
    /// registered yet, so a handshake failure before this point leaves no
    /// trace in the registry.
    pub fn accept(id: u64) -> (c: Connection)
        ensures
            c.id == id,
            c.phase is Connecting,
    {
        Connection { id, phase: ConnPhase::Connecting }
    }

    /// Enter the open state by registering. An identity that is already
    /// present is rejected — the explicit reconnection policy — and the
    /// connection closes without ever having been registered.
    pub fn open(&mut self, reg: &mut Registry) -> (ok: bool)
        requires
            old(self).phase is Connecting,
            old(reg).wf(),
        ensures
            final(reg).wf(),
            final(self).id == old(self).id,
            ok == !old(reg).contains(old(self).id),
            ok ==> final(self).phase is Open && final(reg).ids() == old(reg).ids().push(
                old(self).id,
            ) && final(reg).queue_of(old(self).id) == Seq::<MsgV>::empty() && forall|p: u64|
                p != old(self).id ==> final(reg).queue_of(p) == old(reg).queue_of(p),
            !ok ==> final(self).phase is Closed && *final(reg) == *old(reg),
            final(self).inv(final(reg)),
    {
        if reg.contains_peer(self.id) {
            self.phase = ConnPhase::Closed;
            false
        } else {
            reg.register(self.id);
            self.phase = ConnPhase::Open;
            true
        }
    }

    /// One step of the inbound loop while open.
    pub fn on_frame(&self, reg: &mut Registry, frame: &str) -> (r: Option<KimchiMessage>)
        requires
            self.phase is Open,
            old(reg).wf(),
        ensures
            final(reg).wf(),
            match r {
                Some(m) => parse_msg(frame@) == Some(m@) && broadcast_post(
                    *old(reg),
                    *final(reg),
                    self.id,
                    m@,
                ),
                None => parse_msg(frame@) is None && *final(reg) == *old(reg),
            },
    {
        handle_inbound(reg, self.id, frame)
    }

    /// One step of the outbound loop while open.
    pub fn next_frame(&self, reg: &mut Registry) -> (r: Option<String>)
        requires
            self.phase is Open,
            old(reg).wf(),
        ensures
            final(reg).wf(),
            final(reg).ids() == old(reg).ids(),
            forall|p: u64| p != self.id ==> final(reg).queue_of(p) == old(reg).queue_of(p),
            match r {
                Some(s) => old(reg).queue_of(self.id).len() > 0 && s@ == ser_msg(
                    old(reg).queue_of(self.id)[0],
                ) && final(reg).queue_of(self.id) == old(reg).queue_of(self.id).drop_first(),
                None => old(reg).queue_of(self.id).len() == 0 && *final(reg) == *old(reg),
            },
    {
        next_outbound_frame(reg, self.id)
    }

    /// Either loop ending moves the connection into `Closing`:
    /// deregistration happens first, so that from this point no broadcast
    /// can target this connection; repeated closing is harmless.
    pub fn begin_close(&mut self, reg: &mut Registry)
        requires
            old(reg).wf(),
        ensures
            final(reg).wf(),
            final(self).id == old(self).id,
            final(self).phase is Closing,
            !final(reg).contains(old(self).id),
            forall|p: u64|
                p != old(self).id ==> final(reg).queue_of(p) == old(reg).queue_of(p)
                    && final(reg).contains(p) == old(reg).contains(p),
    {
        reg.deregister(self.id);
        self.phase = ConnPhase::Closing;
    }

    /// Both loops have stopped and the transport is closed; the
    /// connection has no further observable behavior.
    pub fn finish_close(&mut self)
        requires
            old(self).phase is Closing,
        ensures
            final(self).id == old(self).id,
            final(self).phase is Closed,
    {
        self.phase = ConnPhase::Closed;
    }
}

} // verus!
