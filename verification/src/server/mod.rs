//! The in-memory engine: users, rooms, the presence log and the handlers.

pub mod events;
pub mod handlers;
pub mod invariants;
pub mod model;
pub mod net;
pub mod numbering;
pub mod reasons;
pub mod rooms;
pub mod routine;
pub mod runs;
pub mod steps;
pub mod tables;

pub use model::{
    Endpoint, EventSystem, Room, Server, StoredEvent, User, MAX_CONSECUTIVE_BEHIND,
    MAX_EVENT_HISTORY, ROUTINE_SLEEP_MS, USER_TIMEOUT_SECS,
};
pub use net::Effect;
