//! Decision logic of the connection engine. The I/O loops themselves —
//! accepting sockets, polling for readiness, reading and writing — live
//! outside this crate; they call in here for every decision: what to do
//! with an accept outcome, what a poll event asks for, which token a new
//! connection gets, and whether a failed poller setup is retried.
use vstd::prelude::*;

verus! {

/// The two interchangeable connection-engine modes.
#[derive(Debug, Clone, Copy, PartialEq, Eq, Structural)]
pub enum NetModel {
    Multithread,
    EventPoll,
}

/// What one `accept` call came to, as the I/O layer reports it.
#[derive(Debug, Clone, Copy, PartialEq, Eq, Structural)]
pub enum AcceptOutcome {
    /// A connection was accepted.
    Accepted,
    /// The listener has nothing pending right now.
    WouldBlock,
    /// Any other accept error.
    OtherError,
}

/// What the engine does next with an accept outcome. There is no variant
/// that stops the server: an accept failure at most ends the inner accept
/// loop, and the poll loop around it goes on serving.
#[derive(Debug, Clone, Copy, PartialEq, Eq, Structural)]
pub enum AcceptStep {
    /// Register and serve the new connection, then accept again.
    HandleConnection,
    /// Leave the inner accept loop; the poll loop continues.
    EndAcceptLoop,
    /// Log the error, then leave the inner accept loop; the poll loop
    /// continues.
    LogAndEndAcceptLoop,
}

/// The accept-error policy: an accepted connection is handled, would-block
/// ends the accept loop quietly, any other error is logged and ends it.
pub fn accept_step(o: &AcceptOutcome) -> (r: AcceptStep)
    ensures
        o is Accepted ==> r == AcceptStep::HandleConnection,
        o is WouldBlock ==> r == AcceptStep::EndAcceptLoop,
        o is OtherError ==> r == AcceptStep::LogAndEndAcceptLoop,
{
    match o {
        AcceptOutcome::Accepted => AcceptStep::HandleConnection,
        AcceptOutcome::WouldBlock => AcceptStep::EndAcceptLoop,
        AcceptOutcome::OtherError => AcceptStep::LogAndEndAcceptLoop,
    }
}

/// What a readiness event asks the poll loop to do.
#[derive(Debug, Clone, Copy, PartialEq, Eq, Structural)]
pub enum EventAction {
    /// The listener's token: accept until would-block.
    AcceptLoop,
    /// A known, readable connection: parse, dispatch, respond.
    Serve,
    /// Anything else: ignore the event.
    Ignore,
}

/// The token the listening socket is registered under.
pub open spec fn listener_token() -> int {
    0
}

/// Event dispatch: token 0 is the listener; another token is served when
/// the connection is known and readable, and ignored otherwise.
pub fn event_action(token: usize, known: bool, readable: bool) -> (r: EventAction)
    ensures
        token == listener_token() ==> r == EventAction::AcceptLoop,
        token != listener_token() && known && readable ==> r == EventAction::Serve,
        token != listener_token() && !(known && readable) ==> r == EventAction::Ignore,
{
    if token == 0 {
        EventAction::AcceptLoop
    } else if known && readable {
        EventAction::Serve
    } else {
        EventAction::Ignore
    }
}

/// Hands out the per-connection tokens: strictly increasing, never the
/// listener's token 0.
pub struct TokenCounter {
    pub next: usize,
}

impl TokenCounter {
    /// Well-formed: token 0 stays reserved for the listener.
    pub open spec fn wf(&self) -> bool {
        self.next >= 1
    }

    pub fn new() -> (c: TokenCounter)
        ensures
            c.wf(),
            c.next == 1,
    {
        TokenCounter { next: 1 }
    }

    /// The next unique token. Tokens grow strictly, so two calls never
    /// hand out the same one, and none collides with the listener's.
    pub fn fresh(&mut self) -> (t: usize)
        requires
            old(self).wf(),
            old(self).next < usize::MAX,
        ensures
            final(self).wf(),
            t == old(self).next,
            final(self).next == old(self).next + 1,
            t != listener_token(),
    {
        let t = self.next;
        self.next = self.next + 1;
        t
    }
}

/// The poller-setup policy: one retry after the first failure, then give
/// up.
pub fn retry_poller_init(failures_so_far: u8) -> (r: bool)
    ensures
        r == (failures_so_far == 0),
{
    failures_so_far == 0
}

} // verus!
