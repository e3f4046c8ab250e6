use vstd::prelude::*;

verus! {

/// Where a connection stands in its life cycle. The closing step is the
/// transition into `Closed`, which hands back the leave that it owes.
#[derive(Clone, Copy, Debug, PartialEq, Eq, Structural)]
pub enum Phase {
    /// The transport is up; the session has not joined its room yet.
    Connecting,
    /// Joined to the room's store under `id`.
    Active { id: u32 },
    /// Terminal: the session is no longer in the store.
    Closed,
}

/// What happened to the connection.
#[derive(Clone, Debug, PartialEq, Eq)]
pub enum Event {
    /// The join on the room's store returned this id.
    Joined(u32),
    /// The room's store handed out no id.
    JoinRefused,
    /// A text payload came in.
    Text(String),
    /// A liveness probe came in, with its data.
    Ping(Vec<u8>),
    /// A frame of any other kind came in.
    Other,
    /// The transport failed, was closed, or was torn down.
    Terminated,
}

/// What the caller must do in response.
#[derive(Clone, Debug, PartialEq, Eq)]
pub enum Action {
    Nothing,
    /// Deliver `payload` to every member of the room but `sender`.
    Broadcast { sender: u32, payload: String },
    /// Answer a probe with this data.
    Pong(Vec<u8>),
    /// Remove this id from the room's store.
    Leave(u32),
    /// Close the transport.
    Close,
}

/// The phase and action that follow `event` in phase `phase`. A join that
/// completes when the session is already joined or closed is undone at
/// once, so that every id a store hands to this session is left.
pub open spec fn next(phase: Phase, event: Event) -> (Phase, Action) {
    match phase {
        Phase::Connecting => match event {
            Event::Joined(id) => (Phase::Active { id }, Action::Nothing),
            Event::JoinRefused => (Phase::Closed, Action::Close),
            Event::Terminated => (Phase::Closed, Action::Nothing),
            _ => (Phase::Connecting, Action::Nothing),
        },
        Phase::Active { id } => match event {
            Event::Joined(other) => (phase, Action::Leave(other)),
            Event::Text(payload) => (phase, Action::Broadcast { sender: id, payload }),
            Event::Ping(data) => (phase, Action::Pong(data)),
            Event::Terminated => (Phase::Closed, Action::Leave(id)),
            _ => (phase, Action::Nothing),
        },
        Phase::Closed => match event {
            Event::Joined(other) => (Phase::Closed, Action::Leave(other)),
            _ => (Phase::Closed, Action::Nothing),
        },
    }
}

/// The controller of one connection.
pub struct ConnectionSession {
    phase: Phase,
}

impl ConnectionSession {
    pub closed spec fn view(&self) -> Phase {
        self.phase
    }

    /// Returns a session that has not joined yet.
    pub fn new() -> (r: Self)
        ensures
            r@ == Phase::Connecting,
    {
        ConnectionSession { phase: Phase::Connecting }
    }

    /// Current phase.
    pub fn phase(&self) -> (r: Phase)
        ensures
            r == self@,
    {
        self.phase
    }

    /// Moves to the next phase on `event` and returns the action owed.
    pub fn step(&mut self, event: Event) -> (r: Action)
        ensures
            (final(self)@, r) == next(old(self)@, event),
    {
        match self.phase {
            Phase::Connecting => match event {
                Event::Joined(id) => {
                    self.phase = Phase::Active { id };
                    Action::Nothing
                },
                Event::JoinRefused => {
                    self.phase = Phase::Closed;
                    Action::Close
                },
                Event::Terminated => {
                    self.phase = Phase::Closed;
                    Action::Nothing
                },
                _ => Action::Nothing,
            },
            Phase::Active { id } => match event {
                Event::Joined(other) => Action::Leave(other),
                Event::Text(payload) => Action::Broadcast { sender: id, payload },
                Event::Ping(data) => Action::Pong(data),
                Event::Terminated => {
                    self.phase = Phase::Closed;
                    Action::Leave(id)
                },
                _ => Action::Nothing,
            },
            Phase::Closed => match event {
                Event::Joined(other) => Action::Leave(other),
                _ => Action::Nothing,
            },
        }
    }
}

/// Phase reached and actions returned by a new session on `events`.
pub open spec fn run(events: Seq<Event>) -> (Phase, Seq<Action>)
    decreases events.len(),
{
    if events.len() == 0 {
        (Phase::Connecting, Seq::empty())
    } else {
        let (p, acts) = run(events.drop_last());
        let (q, a) = next(p, events.last());
        (q, acts.push(a))
    }
}

/// How many of `events` report a join that returned `x`.
pub open spec fn joins_of(events: Seq<Event>, x: u32) -> nat
    decreases events.len(),
{
    if events.len() == 0 {
        0
    } else {
        joins_of(events.drop_last(), x) + if events.last() == Event::Joined(x) {
            1nat
        } else {
            0nat
        }
    }
}

/// How many of `actions` are a leave of `x`.
pub open spec fn leaves_of(actions: Seq<Action>, x: u32) -> nat
    decreases actions.len(),
{
    if actions.len() == 0 {
        0
    } else {
        leaves_of(actions.drop_last(), x) + if actions.last() == Action::Leave(x) {
            1nat
        } else {
            0nat
        }
    }
}

/// Every id that a session is given is left as many times as it was given:
/// at any point, each id has been left once per join except the one that
/// the session is still active under.
pub proof fn lemma_leave_per_join(events: Seq<Event>, x: u32)
    ensures
        joins_of(events, x) == leaves_of(run(events).1, x) + if run(events).0 == (Phase::Active {
            id: x,
        }) {
            1nat
        } else {
            0nat
        },
    decreases events.len(),
{
    if events.len() > 0 {
        let d = events.drop_last();
        lemma_leave_per_join(d, x);
        let acts = run(d).1;
        let (q, a) = next(run(d).0, events.last());
        assert(acts.push(a).drop_last() =~= acts);
    }
}

/// Once terminated, a session stays closed.
pub proof fn lemma_terminated_is_closed(events: Seq<Event>, i: int)
    requires
        0 <= i < events.len(),
        events[i] == Event::Terminated,
    ensures
        run(events).0 == Phase::Closed,
    decreases events.len(),
{
    let d = events.drop_last();
    if i < events.len() - 1 {
        assert(d[i] == events[i]);
        lemma_terminated_is_closed(d, i);
    }
}

/// After termination, on every exit path, each id the session was given has
/// been left exactly as many times as it was given; in particular an id
/// given once is left exactly once.
pub proof fn lemma_leave_exactly_once(events: Seq<Event>, i: int, x: u32)
    requires
        0 <= i < events.len(),
        events[i] == Event::Terminated,
    ensures
        leaves_of(run(events).1, x) == joins_of(events, x),
{
    lemma_terminated_is_closed(events, i);
    lemma_leave_per_join(events, x);
}

} // verus!
