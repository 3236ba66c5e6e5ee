//! Driver facade: the connection-state machine that turns the module's
//! asynchronous event callbacks into a polled status value. Transitions
//! are a pure function of state and event; a poll returns a whole
//! snapshot, never a partially updated one. The integration layer
//! serializes `on_event` against `poll` with the critical-section
//! primitive; the state value itself is plain data.

use vstd::prelude::*;

verus! {

/// An IPv4 address, one octet per field.
#[derive(Clone, Copy, Debug, PartialEq, Eq, Structural)]
pub struct IpV4 {
    pub a: u8,
    pub b: u8,
    pub c: u8,
    pub d: u8,
}

/// The lease the module's IP-acquisition step hands over: address and
/// prefix length.
#[derive(Clone, Copy, Debug, PartialEq, Eq, Structural)]
pub struct IpConfig {
    pub ip: IpV4,
    pub prefix: u8,
}

/// Connection status surfaced to host polling code. `Connecting` carries
/// whether the link-layer association is already up (the address lease is
/// still outstanding then).
#[derive(Clone, Copy, Debug, PartialEq, Eq, Structural)]
pub enum ConnState {
    Idle,
    Scanning,
    Connecting { link_up: bool },
    Connected { cfg: IpConfig },
    Disconnected { reason: u16 },
}

/// Inputs of the state machine: the module's event callbacks plus the
/// host's commands.
#[derive(Clone, Copy, Debug, PartialEq, Eq, Structural)]
pub enum WifiEvent {
    /// Host asked for a scan and the module started it.
    ScanStarted,
    /// The module finished scanning.
    ScanDone,
    /// Host issued the connect command (credentials travel to the module,
    /// not through this state).
    StartConnect,
    /// The module associated with an access point.
    Associated,
    /// The module's address acquisition completed with this lease.
    GotIp { cfg: IpConfig },
    /// The module lost or refused the association.
    Disassociated { reason: u16 },
    /// Host acknowledged a disconnection, returning to idle.
    Reset,
}

/// The transition function. Association always passes through
/// `Connecting` before an address can move the machine to `Connected`:
/// no intermediate state is skipped, and a stray address event without a
/// link is ignored.
pub open spec fn spec_step(s: ConnState, e: WifiEvent) -> ConnState {
    match e {
        WifiEvent::ScanStarted => if s is Idle {
            ConnState::Scanning
        } else {
            s
        },
        WifiEvent::ScanDone => if s is Scanning {
            ConnState::Idle
        } else {
            s
        },
        WifiEvent::StartConnect => match s {
            ConnState::Connecting { .. } => s,
            ConnState::Connected { .. } => s,
            _ => ConnState::Connecting { link_up: false },
        },
        WifiEvent::Associated => match s {
            ConnState::Connected { .. } => s,
            _ => ConnState::Connecting { link_up: true },
        },
        WifiEvent::GotIp { cfg } => match s {
            ConnState::Connecting { link_up: true } => ConnState::Connected { cfg },
            _ => s,
        },
        WifiEvent::Disassociated { reason } => match s {
            ConnState::Connecting { .. } => ConnState::Disconnected { reason },
            ConnState::Connected { .. } => ConnState::Disconnected { reason },
            _ => s,
        },
        WifiEvent::Reset => match s {
            ConnState::Disconnected { .. } => ConnState::Idle,
            _ => s,
        },
    }
}

/// The facade value: the current status, updated only through `on_event`.
pub struct Facade {
    pub state: ConnState,
}

impl Facade {
    pub fn new() -> (r: Facade)
        ensures
            r.state == ConnState::Idle,
    {
        Facade { state: ConnState::Idle }
    }

    /// Apply one module event or host command.
    pub fn on_event(&mut self, e: WifiEvent)
        ensures
            final(self).state == spec_step(old(self).state, e),
    {
        let s = self.state;
        self.state = match e {
            WifiEvent::ScanStarted => match s {
                ConnState::Idle => ConnState::Scanning,
                _ => s,
            },
            WifiEvent::ScanDone => match s {
                ConnState::Scanning => ConnState::Idle,
                _ => s,
            },
            WifiEvent::StartConnect => match s {
                ConnState::Connecting { .. } => s,
                ConnState::Connected { .. } => s,
                _ => ConnState::Connecting { link_up: false },
            },
            WifiEvent::Associated => match s {
                ConnState::Connected { .. } => s,
                _ => ConnState::Connecting { link_up: true },
            },
            WifiEvent::GotIp { cfg } => match s {
                ConnState::Connecting { link_up } => {
                    if link_up {
                        ConnState::Connected { cfg }
                    } else {
                        s
                    }
                },
                _ => s,
            },
            WifiEvent::Disassociated { reason } => match s {
                ConnState::Connecting { .. } => ConnState::Disconnected { reason },
                ConnState::Connected { .. } => ConnState::Disconnected { reason },
                _ => s,
            },
            WifiEvent::Reset => match s {
                ConnState::Disconnected { .. } => ConnState::Idle,
                _ => s,
            },
        };
    }

    /// Snapshot read for host polling: the whole current status at once.
    pub fn poll(&self) -> (r: ConnState)
        ensures
            r == self.state,
    {
        self.state
    }
}

/// An address can only be observed behind a completed association: any
/// run of events that leaves the machine `Connected` passed through
/// `Connecting` with the link up at the step that connected it.
pub proof fn lemma_connected_only_after_link_up(s: ConnState, e: WifiEvent)
    requires
        !(s is Connected),
        spec_step(s, e) is Connected,
    ensures
        s == (ConnState::Connecting { link_up: true }),
        e matches WifiEvent::GotIp { cfg } && spec_step(s, e) == (ConnState::Connected { cfg }),
{
}

} // verus!
