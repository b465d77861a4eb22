//! Multi-server connection state for a synac chat client: per-server sessions
//! with their replicated channels and users, message history, typing
//! presence, and the registry that holds them.

pub mod address;
pub mod cache;
pub mod clock;
pub mod connect;
pub mod event;
mod keyed;
pub mod message;
pub mod mode;
pub mod order;
pub mod outbound;
pub mod registry;
mod seq_facts;
pub mod session;
pub mod state;
pub mod typing;
pub mod view;
