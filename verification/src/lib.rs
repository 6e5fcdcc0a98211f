//! A small task tracker whose records live as human-readable text.
//!
//! The library holds the verified core: the task record model and its
//! status lifecycle (`task`), the durable text form of a record and the
//! proof that writing and reading it back loses nothing (`codec`), the
//! record store with identifier resolution, listing and decay (`store`),
//! identifier generation (`id`), and the protocol of the version-control
//! backend (`jj`). Everything that touches the outside world — files,
//! processes, the clock, arguments — stays with the caller, which hands
//! plain values in and takes plain values back.

pub mod codec;
pub mod id;
pub mod jj;
pub mod store;
pub mod task;
pub mod text;
pub mod time;
