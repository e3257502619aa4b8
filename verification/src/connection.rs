//! Reaching the peers: which peer to connect to next, and what follows each
//! attempt. The connections themselves live outside the library; what is
//! decided here is the order of the attempts, the handshake that follows a
//! success, and the pause that follows a failure.

use crate::protocol::Command;
use vstd::prelude::*;

verus! {

/// The seconds to wait after an attempt has failed.
pub const FAILURE_BACKOFF_SECONDS: u64 = 3;

/// The seconds to wait before every further attempt.
pub const ATTEMPT_PAUSE_SECONDS: u64 = 1;

/// What to do next on the way to a connection with every peer.
#[derive(Clone, Copy, Debug, PartialEq, Eq, Structural)]
pub enum ConnectStep {
    /// Try to connect to the party `peer`, which listens on `port`.
    Attempt { peer: u64, port: u16 },
    /// Every peer is connected.
    Done,
}

/// What follows an attempt.
#[derive(Clone, Copy, Debug, PartialEq, Eq, Structural)]
pub enum AttemptOutcome {
    /// The attempt has succeeded: send `handshake` over the new connection
    /// and keep the connection for the party `peer`.
    Established { peer: u64, handshake: Command },
    /// The attempt has failed: wait for `seconds`, then try the same peer
    /// again.
    Retry { seconds: u64 },
    /// There was no peer left to connect to.
    Idle,
}

/// The mathematical model of the progress towards the peers.
pub struct ConnectorState {
    /// The port that this party listens on.
    pub own_port: u16,
    /// The peers, each with its identifier and its port, in the order in
    /// which they are connected.
    pub targets: Seq<(u64, u16)>,
    /// The number of peers connected so far.
    pub connected: nat,
}

/// What the state asks for next.
pub open spec fn next_step(s: ConnectorState) -> ConnectStep {
    if s.connected < s.targets.len() {
        ConnectStep::Attempt {
            peer: s.targets[s.connected as int].0,
            port: s.targets[s.connected as int].1,
        }
    } else {
        ConnectStep::Done
    }
}

/// The state after an attempt that has succeeded or not.
pub open spec fn after_attempt(s: ConnectorState, success: bool) -> ConnectorState {
    if success && s.connected < s.targets.len() {
        ConnectorState { connected: s.connected + 1, ..s }
    } else {
        s
    }
}

/// What follows an attempt that has succeeded or not.
pub open spec fn outcome(s: ConnectorState, success: bool) -> AttemptOutcome {
    if s.connected >= s.targets.len() {
        AttemptOutcome::Idle
    } else if success {
        AttemptOutcome::Established {
            peer: s.targets[s.connected as int].0,
            handshake: Command::Hello { port: s.own_port },
        }
    } else {
        AttemptOutcome::Retry { seconds: (FAILURE_BACKOFF_SECONDS + ATTEMPT_PAUSE_SECONDS) as u64 }
    }
}

/// The progress of one party towards a connection with every peer. The
/// peers are connected one after the other; a peer that cannot be reached is
/// tried again, without end.
pub struct Connector {
    own_port: u16,
    targets: Vec<(u64, u16)>,
    connected: usize,
}

impl View for Connector {
    type V = ConnectorState;

    closed spec fn view(&self) -> ConnectorState {
        ConnectorState {
            own_port: self.own_port,
            targets: self.targets@,
            connected: self.connected as nat,
        }
    }
}

impl Connector {
    /// A connector with no peer connected yet.
    pub fn new(own_port: u16, targets: Vec<(u64, u16)>) -> (c: Connector)
        ensures
            c@ == (ConnectorState { own_port, targets: targets@, connected: 0 }),
    {
        Connector { own_port, targets, connected: 0 }
    }

    /// What to do next.
    pub fn step(&self) -> (r: ConnectStep)
        ensures
            r == next_step(self@),
    {
        if self.connected < self.targets.len() {
            let target = self.targets[self.connected];
            ConnectStep::Attempt { peer: target.0, port: target.1 }
        } else {
            ConnectStep::Done
        }
    }

    /// Takes note of how the attempt that `step` asked for has ended, and
    /// says what follows it.
    pub fn record(&mut self, success: bool) -> (r: AttemptOutcome)
        ensures
            final(self)@ == after_attempt(old(self)@, success),
            r == outcome(old(self)@, success),
    {
        if self.connected >= self.targets.len() {
            AttemptOutcome::Idle
        } else if success {
            let peer = self.targets[self.connected].0;
            self.connected = self.connected + 1;
            AttemptOutcome::Established { peer, handshake: Command::Hello { port: self.own_port } }
        } else {
            AttemptOutcome::Retry { seconds: FAILURE_BACKOFF_SECONDS + ATTEMPT_PAUSE_SECONDS }
        }
    }
}

/// The state after a run of attempts, each of which has succeeded or not.
pub open spec fn after_attempts(s: ConnectorState, results: Seq<bool>) -> ConnectorState
    decreases results.len(),
{
    if results.len() == 0 {
        s
    } else {
        after_attempt(after_attempts(s, results.drop_last()), results.last())
    }
}

/// The number of attempts that have succeeded.
pub open spec fn successes(results: Seq<bool>) -> nat
    decreases results.len(),
{
    if results.len() == 0 {
        0
    } else {
        successes(results.drop_last()) + if results.last() {
            1nat
        } else {
            0nat
        }
    }
}

/// After any run of attempts, the number of peers connected is the number
/// of attempts that have succeeded, but at most the number of peers: no
/// peer is skipped and none is connected twice. The peers and the own port
/// stay as they were.
pub proof fn law_connected_count(s: ConnectorState, results: Seq<bool>)
    requires
        s.connected <= s.targets.len(),
    ensures
        after_attempts(s, results).connected == if s.connected + successes(results)
            <= s.targets.len() {
            s.connected + successes(results)
        } else {
            s.targets.len()
        },
        after_attempts(s, results).targets == s.targets,
        after_attempts(s, results).own_port == s.own_port,
    decreases results.len(),
{
    if results.len() > 0 {
        law_connected_count(s, results.drop_last());
    }
}

} // verus!
