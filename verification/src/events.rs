//! The messages that cross the engine's boundary: transition requests that go
//! in, and the notifications that a transition gives out.
use vstd::prelude::*;

verus! {

/// What a transition goes through: an edge of the edge table, or directly a
/// state that is to be entered.
#[derive(Clone, Copy, Debug, PartialEq, Eq, Structural)]
pub enum Via {
    /// The edge with this index.
    Edge(usize),
    /// The state with this index, entered without an edge.
    State(usize),
}

/// The events that a triggering event derives for the three phases of a
/// transition. Each is an opaque handle that the host resolves.
#[derive(Clone, Copy, Debug, PartialEq, Eq, Structural)]
pub struct PhaseEvents {
    /// Delivered in the exit phase.
    pub exit: Option<u64>,
    /// Delivered with the transition's actions.
    pub effect: Option<u64>,
    /// Delivered in the entry phase.
    pub entry: Option<u64>,
}

impl PhaseEvents {
    /// No derived event for any phase.
    pub fn none() -> (p: PhaseEvents)
        ensures
            p == (PhaseEvents { exit: None, effect: None, entry: None }),
    {
        PhaseEvents { exit: None, effect: None, entry: None }
    }
}

/// An event of the host that can derive events for the phases of the
/// transition it causes. Each derived event is a handle that the host
/// resolves when it is delivered.
pub trait TransitionEvent {
    /// The handle of the exit-phase event, if the event derives one.
    spec fn exit_event(&self) -> Option<u64>;

    /// The handle of the action-phase event, if the event derives one.
    spec fn effect_event(&self) -> Option<u64>;

    /// The handle of the entry-phase event, if the event derives one.
    spec fn entry_event(&self) -> Option<u64>;

    /// The exit-phase event.
    fn to_exit_event(&self) -> (e: Option<u64>)
        ensures
            e == self.exit_event(),
    ;

    /// The action-phase event.
    fn to_effect_event(&self) -> (e: Option<u64>)
        ensures
            e == self.effect_event(),
    ;

    /// The entry-phase event.
    fn to_entry_event(&self) -> (e: Option<u64>)
        ensures
            e == self.entry_event(),
    ;
}

/// An event that derives nothing.
#[derive(Clone, Copy, Debug, PartialEq, Eq, Structural)]
pub struct NoEvent;

impl Default for NoEvent {
    fn default() -> (e: NoEvent) {
        NoEvent
    }
}

impl TransitionEvent for NoEvent {
    open spec fn exit_event(&self) -> Option<u64> {
        None
    }

    open spec fn effect_event(&self) -> Option<u64> {
        None
    }

    open spec fn entry_event(&self) -> Option<u64> {
        None
    }

    fn to_exit_event(&self) -> (e: Option<u64>) {
        None
    }

    fn to_effect_event(&self) -> (e: Option<u64>) {
        None
    }

    fn to_entry_event(&self) -> (e: Option<u64>) {
        None
    }
}

impl PhaseEvents {
    /// The phase events that `event` derives.
    pub fn of<E: TransitionEvent>(event: &E) -> (p: PhaseEvents)
        ensures
            p == (PhaseEvents {
                exit: event.exit_event(),
                effect: event.effect_event(),
                entry: event.entry_event(),
            }),
    {
        PhaseEvents {
            exit: event.to_exit_event(),
            effect: event.to_effect_event(),
            entry: event.to_entry_event(),
        }
    }
}

/// An event sent to a state or to the root of a machine.
#[derive(Clone, Copy, Debug, PartialEq, Eq, Structural)]
pub struct Event {
    /// The type of the event.
    pub kind: u64,
    /// The state that the event is sent to.
    pub target: usize,
    /// The events derived from it for the phases of a transition.
    pub phases: PhaseEvents,
}

impl Event {
    /// An event of type `kind` for `target` that derives no phase events.
    pub fn new(kind: u64, target: usize) -> (e: Event)
        ensures
            e == (Event { kind, target, phases: PhaseEvents { exit: None, effect: None, entry: None } }),
    {
        Event { kind, target, phases: PhaseEvents::none() }
    }
}

/// A request to take a transition in a machine.
#[derive(Clone, Copy, Debug, PartialEq, Eq, Structural)]
pub struct Transition {
    /// The root of the machine.
    pub machine: usize,
    /// The state that the transition leaves from.
    pub source: usize,
    /// The edge that defines target and kind, or the state to enter.
    pub edge: Via,
    /// The derived events to deliver in the transition's phases.
    pub payload: PhaseEvents,
}

/// A state is being entered.
#[derive(Clone, Copy, Debug, PartialEq, Eq, Structural)]
pub struct EnterState {
    /// The state.
    pub target: usize,
}

/// A state is being exited.
#[derive(Clone, Copy, Debug, PartialEq, Eq, Structural)]
pub struct ExitState {
    /// The state.
    pub target: usize,
}

/// The actions of a transition run: after all exits, before any entry.
#[derive(Clone, Copy, Debug, PartialEq, Eq, Structural)]
pub struct TransitionActions {
    /// What the transition goes through.
    pub target: Via,
}

/// A request to reset the machine rooted at a state.
#[derive(Clone, Copy, Debug, PartialEq, Eq, Structural)]
pub struct ResetRegion {
    /// The root of the machine.
    pub target: usize,
}

impl ResetRegion {
    /// A reset request for the machine rooted at `entity`.
    pub fn new(entity: usize) -> (r: ResetRegion)
        ensures
            r.target == entity,
    {
        ResetRegion { target: entity }
    }
}

/// A state's own data is to be reset.
#[derive(Clone, Copy, Debug, PartialEq, Eq, Structural)]
pub struct Reset {
    /// The state.
    pub target: usize,
}

impl Reset {
    /// A reset notice for state `entity`.
    pub fn new(entity: usize) -> (r: Reset)
        ensures
            r.target == entity,
    {
        Reset { target: entity }
    }
}

/// What a transition tells the host, in the order in which it happens.
#[derive(Clone, Copy, Debug, PartialEq, Eq, Structural)]
pub enum Notification {
    /// A state is exited.
    Exit(ExitState),
    /// The transition's actions run.
    Actions(TransitionActions),
    /// A state is entered.
    Enter(EnterState),
    /// The exit-phase event `event` is delivered to the state `target`.
    ExitEvent { target: usize, event: u64 },
    /// The action-phase event `event` is delivered to what the transition
    /// goes through.
    EffectEvent { via: Via, event: u64 },
    /// The entry-phase event `event` is delivered to the state `target`.
    EntryEvent { target: usize, event: u64 },
    /// A state's own data is to be reset.
    Reset(Reset),
}

/// The entry notifications for a sequence of states.
pub open spec fn enter_all(ids: Seq<usize>) -> Seq<Notification> {
    ids.map_values(|s: usize| Notification::Enter(EnterState { target: s }))
}

/// The exit notifications for a sequence of states.
pub open spec fn exit_all(ids: Seq<usize>) -> Seq<Notification> {
    ids.map_values(|s: usize| Notification::Exit(ExitState { target: s }))
}

} // verus!
