//! Review-ball determination for open change requests.

pub mod events;
pub mod timeline;
pub mod ball;
pub mod text;
pub mod roster;
pub mod authors;
pub mod classify;
pub mod worklist;
