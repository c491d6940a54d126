//! The lifecycle of one discovery session, and the per-component policies
//! for transport events.
//!
//! A session owns the peer table and moves through three phases:
//! initializing, running, stopped. The transport itself lives outside this
//! crate; it reports plain events (bind outcome, fatal component errors,
//! cancellation), and [`Session::step`] decides what each does to the
//! session. One component's death degrades the session; it stops only when
//! no component is left alive or the caller cancels.

use vstd::prelude::*;

use crate::address::Ipv4Address;
use crate::codec::{decode, spec_decode};
use crate::registry::{admission_step, Registry};

verus! {

/// Where a session stands in its life.
#[derive(Clone, Copy, Debug, PartialEq, Eq, Structural)]
pub enum SessionPhase {
    /// The socket is not bound yet; no component runs.
    Initializing,
    /// At least one of the announcer and the listener is alive.
    Running,
    /// No component is alive; the table is retained.
    Stopped,
}

/// One lifecycle event, as the transport or the caller reports it.
#[derive(Clone, Copy, Debug)]
pub enum SessionEvent {
    /// The socket was bound and both components started.
    BindSucceeded,
    /// The socket could not be bound; the session never runs.
    BindFailed,
    /// The announcer hit a fatal send error and left its loop.
    AnnouncerFatal,
    /// The listener hit a fatal receive error and left its loop.
    ListenerFatal,
    /// The caller cancelled the session.
    Cancelled,
}

/// What a component does next after one pass of its loop.
#[derive(Clone, Copy, Debug, PartialEq, Eq, Structural)]
pub enum ComponentAction {
    Continue,
    Stop,
}

/// One discovery session: its phase, which components are alive, and the
/// peer table, which outlives the components.
pub struct Session {
    pub phase: SessionPhase,
    pub announcer_alive: bool,
    pub listener_alive: bool,
    pub registry: Registry,
}

/// Whether two session states agree on phase and component liveness.
pub open spec fn same_lifecycle(a: Session, b: Session) -> bool {
    &&& a.phase == b.phase
    &&& a.announcer_alive == b.announcer_alive
    &&& a.listener_alive == b.listener_alive
}

impl Session {
    /// The phase always reflects the components: running exactly while
    /// one of them is alive, and none is alive before the bind.
    pub open spec fn wf(self) -> bool {
        &&& self.registry.wf()
        &&& (self.phase is Running <==> (self.announcer_alive || self.listener_alive))
        &&& (self.phase is Initializing ==> !self.announcer_alive && !self.listener_alive)
    }

    /// A fresh session bound-to-be at `local`: initializing, no component
    /// alive, empty table.
    pub fn new(local: Ipv4Address) -> (s: Session)
        ensures
            s.wf(),
            s.phase is Initializing,
            s.registry.local == local,
            s.registry.entries@.len() == 0,
    {
        Session {
            phase: SessionPhase::Initializing,
            announcer_alive: false,
            listener_alive: false,
            registry: Registry::new(local),
        }
    }

    /// Applies one lifecycle event. A bind outcome only matters while
    /// initializing; a component's fatal error kills that component alone,
    /// and the session stops when none is left; cancellation stops it at
    /// once. A stopped session never changes again, and the table is
    /// never touched by lifecycle events.
    pub fn step(&mut self, event: SessionEvent)
        requires
            old(self).wf(),
        ensures
            final(self).wf(),
            final(self).registry == old(self).registry,
            old(self).phase is Stopped ==> final(self).phase is Stopped,
            match event {
                SessionEvent::BindSucceeded => if old(self).phase is Initializing {
                    final(self).phase is Running && final(self).announcer_alive
                        && final(self).listener_alive
                } else {
                    same_lifecycle(*final(self), *old(self))
                },
                SessionEvent::BindFailed => if old(self).phase is Initializing {
                    final(self).phase is Stopped && !final(self).announcer_alive
                        && !final(self).listener_alive
                } else {
                    same_lifecycle(*final(self), *old(self))
                },
                SessionEvent::AnnouncerFatal => !final(self).announcer_alive
                    && final(self).listener_alive == old(self).listener_alive
                    && (final(self).phase is Running <==> old(self).phase is Running && old(
                    self,
                ).listener_alive),
                SessionEvent::ListenerFatal => !final(self).listener_alive
                    && final(self).announcer_alive == old(self).announcer_alive
                    && (final(self).phase is Running <==> old(self).phase is Running && old(
                    self,
                ).announcer_alive),
                SessionEvent::Cancelled => final(self).phase is Stopped
                    && !final(self).announcer_alive && !final(self).listener_alive,
            },
    {
        match event {
            SessionEvent::BindSucceeded => {
                if matches!(self.phase, SessionPhase::Initializing) {
                    self.phase = SessionPhase::Running;
                    self.announcer_alive = true;
                    self.listener_alive = true;
                }
            },
            SessionEvent::BindFailed => {
                if matches!(self.phase, SessionPhase::Initializing) {
                    self.phase = SessionPhase::Stopped;
                }
            },
            SessionEvent::AnnouncerFatal => {
                self.announcer_alive = false;
                if !self.listener_alive && matches!(self.phase, SessionPhase::Running) {
                    self.phase = SessionPhase::Stopped;
                }
            },
            SessionEvent::ListenerFatal => {
                self.listener_alive = false;
                if !self.announcer_alive && matches!(self.phase, SessionPhase::Running) {
                    self.phase = SessionPhase::Stopped;
                }
            },
            SessionEvent::Cancelled => {
                self.announcer_alive = false;
                self.listener_alive = false;
                self.phase = SessionPhase::Stopped;
            },
        }
    }
}

/// What the listener saw in one pass of its loop.
pub enum ListenerEvent {
    /// One datagram arrived, already read into text.
    Datagram(String),
    /// The bounded receive wait elapsed: benign, keep listening.
    TimedOut,
    /// Any other receive failure: fatal for the listener.
    TransportFailed,
}

/// Whether two registries hold the same local address and rows.
pub open spec fn same_table(a: Registry, b: Registry) -> bool {
    &&& a.local == b.local
    &&& a.entries@ == b.entries@
}

/// One pass of the listener loop: a datagram is decoded and, when it
/// carries an envelope, handed to the registry; a timeout is benign; any
/// other transport failure stops the listener. No payload content can
/// stop it: a payload that does not decode is dropped and the loop goes
/// on.
pub fn listener_pass(registry: &mut Registry, event: &ListenerEvent) -> (action: ComponentAction)
    requires
        old(registry).wf(),
    ensures
        final(registry).wf(),
        final(registry).local == old(registry).local,
        (action is Stop <==> event is TransportFailed),
        match event {
            ListenerEvent::Datagram(p) => match spec_decode(p@) {
                Some(v) => final(registry).as_map() == admission_step(
                    old(registry).as_map(),
                    old(registry).local,
                    v,
                ),
                None => same_table(*final(registry), *old(registry)),
            },
            ListenerEvent::TimedOut => same_table(*final(registry), *old(registry)),
            ListenerEvent::TransportFailed => same_table(*final(registry), *old(registry)),
        },
{
    match event {
        ListenerEvent::Datagram(p) => {
            match decode(p.as_str()) {
                Ok(envelope) => {
                    registry.accept(&envelope);
                },
                Err(_) => {},
            }
            ComponentAction::Continue
        },
        ListenerEvent::TimedOut => ComponentAction::Continue,
        ListenerEvent::TransportFailed => ComponentAction::Stop,
    }
}

/// The announcer's policy after one broadcast attempt: a failed send is
/// fatal to the announce loop, a delivered one lets it continue.
pub fn announcer_pass(send_succeeded: bool) -> (action: ComponentAction)
    ensures
        action is Continue <==> send_succeeded,
{
    if send_succeeded {
        ComponentAction::Continue
    } else {
        ComponentAction::Stop
    }
}

} // verus!
