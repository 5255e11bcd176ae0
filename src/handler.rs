use vstd::prelude::*;
use crate::registry::{apply_action, Connections, RegistryView, SessionAction};
use crate::table::{Table, TableView};

verus! {

/// Seconds without a message after which a streaming connection is closed.
pub const IDLE_TIMEOUT_SECS: u64 = 10;

/// Where a connection stands.
pub enum Phase {
    /// Waiting for the first message, which must be the device id as text.
    AwaitingHandshake,
    /// The device introduced itself; batches go to its buffer.
    Streaming(Seq<char>),
    /// The connection is over.
    Closed,
}

/// What the transport reported, as the handler sees it.
pub enum EventView {
    Text(Seq<char>),
    Batch(TableView),
    Undecodable,
    Close,
    Other,
    Timeout,
    StreamEnd,
}

/// What the transport reported.
pub enum Event {
    /// A text frame.
    Text(String),
    /// A binary frame that decoded to a batch of readings.
    Batch(Table),
    /// A binary frame that did not decode.
    Undecodable,
    /// A close frame from the peer.
    Close,
    /// Any other frame (ping, pong, ...).
    Other,
    /// No message within `IDLE_TIMEOUT_SECS`.
    Timeout,
    /// The transport ended without a close frame.
    StreamEnd,
}

impl View for Event {
    type V = EventView;

    open spec fn view(&self) -> EventView {
        match self {
            Event::Text(s) => EventView::Text(s@),
            Event::Batch(t) => EventView::Batch(t@),
            Event::Undecodable => EventView::Undecodable,
            Event::Close => EventView::Close,
            Event::Other => EventView::Other,
            Event::Timeout => EventView::Timeout,
            Event::StreamEnd => EventView::StreamEnd,
        }
    }
}

/// What the transport should do after an event.
#[derive(PartialEq, Eq, Structural, Clone, Copy, Debug)]
pub struct Reply {
    /// Send a close frame to the peer.
    pub send_close: bool,
    /// Stop reading: the connection is over.
    pub finished: bool,
}

/// One step of a connection: the next phase, the reply to the transport, and
/// the action on the registry, if any (on a device id). Batches are trimmed
/// to `retention` nanoseconds.
pub open spec fn step(phase: Phase, event: EventView, retention: i64) -> (
    Phase,
    Reply,
    Option<(Seq<char>, SessionAction)>,
) {
    let go_on = Reply { send_close: false, finished: false };
    match phase {
        Phase::AwaitingHandshake => match event {
            EventView::Text(id) => (Phase::Streaming(id), go_on, Some((id, SessionAction::Connect))),
            _ => (Phase::Closed, Reply { send_close: true, finished: true }, None),
        },
        Phase::Streaming(id) => match event {
            EventView::Timeout | EventView::StreamEnd => (
                Phase::Closed,
                Reply { send_close: true, finished: true },
                Some((id, SessionAction::SetActive(false))),
            ),
            EventView::Close => (
                Phase::Closed,
                Reply { send_close: false, finished: true },
                Some((id, SessionAction::SetActive(false))),
            ),
            EventView::Batch(b) => (phase, go_on, Some((id, SessionAction::Append(b, retention)))),
            _ => (phase, go_on, None),
        },
        Phase::Closed => (Phase::Closed, Reply { send_close: false, finished: true }, None),
    }
}

/// The registry after a step's action.
pub open spec fn registry_after(v: RegistryView, e: Option<(Seq<char>, SessionAction)>) -> RegistryView {
    match e {
        Some((id, a)) => apply_action(v, id, a),
        None => v,
    }
}

/// Whether a step marks a session quiet.
pub open spec fn deactivates(e: Option<(Seq<char>, SessionAction)>) -> bool {
    e matches Some((_, SessionAction::SetActive(false)))
}

/// The phase after a series of events.
pub open spec fn run(phase: Phase, events: Seq<EventView>, retention: i64) -> Phase
    decreases events.len(),
{
    if events.len() == 0 {
        phase
    } else {
        run(step(phase, events[0], retention).0, events.drop_first(), retention)
    }
}

/// How many steps of a series of events mark a session quiet.
pub open spec fn deactivations(phase: Phase, events: Seq<EventView>, retention: i64) -> nat
    decreases events.len(),
{
    if events.len() == 0 {
        0
    } else {
        let (next, _, e) = step(phase, events[0], retention);
        (if deactivates(e) {
            1nat
        } else {
            0nat
        }) + deactivations(next, events.drop_first(), retention)
    }
}

/// Whatever the transport reports, a connection marks its device quiet at
/// most once; one that completed its handshake does so exactly when it
/// ends, and a closed one does nothing more.
pub proof fn lemma_deactivated_once(phase: Phase, events: Seq<EventView>, retention: i64)
    ensures
        deactivations(phase, events, retention) <= 1,
        phase is Streaming ==> (deactivations(phase, events, retention) == 1 <==> run(
            phase,
            events,
            retention,
        ) is Closed),
        phase is Closed ==> deactivations(phase, events, retention) == 0 && run(
            phase,
            events,
            retention,
        ) is Closed,
    decreases events.len(),
{
    if events.len() > 0 {
        let (next, _, e) = step(phase, events[0], retention);
        lemma_deactivated_once(next, events.drop_first(), retention);
        if phase is Streaming && !(next is Closed) {
            assert(!deactivates(e));
        }
    }
}

/// The per-connection ingestion state machine. The transport reads one
/// message at a time (waiting at most `IDLE_TIMEOUT_SECS` once streaming),
/// hands it to `handle`, and does what the reply says.
pub struct IngestionHandler {
    phase: HandlerPhase,
    retention: i64,
}

/// Where a connection stands, with the device id as a string.
enum HandlerPhase {
    AwaitingHandshake,
    Streaming(String),
    Closed,
}

impl View for IngestionHandler {
    type V = Phase;

    closed spec fn view(&self) -> Phase {
        match self.phase {
            HandlerPhase::AwaitingHandshake => Phase::AwaitingHandshake,
            HandlerPhase::Streaming(id) => Phase::Streaming(id@),
            HandlerPhase::Closed => Phase::Closed,
        }
    }
}

impl IngestionHandler {
    /// The retention that batches are trimmed to, in nanoseconds.
    pub closed spec fn retention(&self) -> i64 {
        self.retention
    }

    /// A handler for a newly opened connection.
    pub fn new(retention: i64) -> (h: IngestionHandler)
        ensures
            h@ == Phase::AwaitingHandshake,
            h.retention() == retention,
    {
        IngestionHandler { phase: HandlerPhase::AwaitingHandshake, retention }
    }

    /// Takes one event: moves to the next phase, applies the step's action
    /// to the registry, and says what the transport should do.
    pub fn handle(&mut self, registry: &mut Connections, event: Event) -> (r: Reply)
        requires
            old(registry).wf(),
            event matches Event::Batch(b) ==> b.wf(),
        ensures
            final(registry).wf(),
            final(self).retention() == old(self).retention(),
            final(self)@ == step(old(self)@, event@, old(self).retention()).0,
            r == step(old(self)@, event@, old(self).retention()).1,
            final(registry)@ == registry_after(
                old(registry)@,
                step(old(self)@, event@, old(self).retention()).2,
            ),
    {
        let go_on = Reply { send_close: false, finished: false };
        let closing = Reply { send_close: true, finished: true };
        match &self.phase {
            HandlerPhase::AwaitingHandshake => match event {
                Event::Text(id) => {
                    registry.connect(id.as_str());
                    self.phase = HandlerPhase::Streaming(id);
                    go_on
                },
                _ => {
                    self.phase = HandlerPhase::Closed;
                    closing
                },
            },
            HandlerPhase::Streaming(id) => match event {
                Event::Timeout | Event::StreamEnd => {
                    registry.set_active(id.as_str(), false);
                    self.phase = HandlerPhase::Closed;
                    closing
                },
                Event::Close => {
                    registry.set_active(id.as_str(), false);
                    self.phase = HandlerPhase::Closed;
                    Reply { send_close: false, finished: true }
                },
                Event::Batch(batch) => {
                    registry.append_batch(id.as_str(), batch, self.retention);
                    go_on
                },
                _ => go_on,
            },
            HandlerPhase::Closed => Reply { send_close: false, finished: true },
        }
    }
}

} // verus!
