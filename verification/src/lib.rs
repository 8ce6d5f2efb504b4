//! Core of an actor-oriented runtime: the `Swarm`, a container that stores
//! many instances of one actor kind in a compact, size-classed layout,
//! indexes them by a versioned handle, and dispatches messages — including
//! broadcasts — to them with well-defined semantics while handlers create,
//! resize, or kill instances during the very walk that reaches them.

pub mod id;
pub mod instance;
pub mod messaging;
pub mod slot_map;
pub mod arena;
pub mod swarm;
pub mod handlers;
pub mod system;
