//! A small link-clipping list: an ordered sequence of entries (a description
//! and a completed flag), the synchronous mutations a list UI needs, a
//! reducer that turns UI events into state changes and side-effect requests,
//! and a byte-exact JSON codec for persisting the list and for talking to the
//! clipping endpoint.

pub mod json;
pub mod state;
pub mod text;
pub mod update;

pub use state::Entry;
pub use state::State;
pub use update::Msg;
pub use update::Url;
