//! Render-scope lifecycle engine of a UI runtime.
//!
//! Every component instance owns a scope: two arenas that hold its last
//! two rendered outputs, its hooks and its bookkeeping. The registry owns
//! the scopes, the render step re-renders one of them, and a render that
//! suspends is polled until it either resolves or has to wait for the
//! scheduler.
//!
//! `virtual_dom` holds the registry and the render step, `dom_view` the
//! model that their contracts speak of. `protocol` decides what a request
//! of the desktop shell names and how an asset is served.
pub mod any_props;
pub mod bump_frame;
pub mod dirty;
pub mod dom_view;
pub mod hooks;
pub mod nodes;
pub mod protocol;
pub mod scheduler;
pub mod scopes;
pub mod slot_table;
pub mod suspense;
pub mod text;
pub mod virtual_dom;
