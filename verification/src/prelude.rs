//! The names that a user of the engine needs most.
pub use crate::chart::{Chart, Stimulus};
pub use crate::deferral::{DeferEvent, DeferralQueue};
pub use crate::dispatch::{always_edge_listener, edge_event_listener, Dispatch};
pub use crate::drill::get_all_leaf_states;
pub use crate::edges::{After, Edge, EdgeKind, EdgeTable, ResetEdge, ResetScope, Trigger};
pub use crate::engine::fire;
pub use crate::events::{
    EnterState, Event, ExitState, NoEvent, Notification, PhaseEvents, Reset, ResetRegion,
    Transition, TransitionActions, TransitionEvent, Via,
};
pub use crate::graph::{History, StateGraph, StateNode};
pub use crate::guards::{Guard, Guards};
pub use crate::history::{HistoryState, HistoryStore};
pub use crate::machine::StateMachine;
pub use crate::parameter::{
    apply_bool_param_guards, apply_int_param_guards, sync_bool_param, sync_int_param, BoolEquals,
    BoolParam, BoolParamBinding, IntInRange, IntParam, IntParamBinding,
};
pub use crate::resting::{RestingState, StateAggregator};
pub use crate::timers::{EdgeTimer, PendingEvent, TimerService};
pub use crate::timing::{
    cancel_after_on_exit, cancel_pending_event_on_exit, check_always_on_guards_changed,
    replay_deferred_event, start_after_on_enter, tick_after_event_timers, tick_after_system,
};
