//! Stable connect/disconnect reporting for display connectors.
//!
//! Connector readings from every graphics controller are diffed against a
//! baseline, and the resulting candidates go through a debounce filter that
//! only lets a change out once it has held for a quiet period.

pub mod state;
pub mod key;
pub mod detector;
pub mod debounce;
pub mod snapshot;
pub mod reconcile;
pub mod laws;
