//! The bookkeeping engine, its model and what is proved of it.
pub mod laws;
pub mod model;
pub mod state;
pub mod wrapped;
