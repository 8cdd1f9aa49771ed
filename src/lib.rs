//! A pipeline of named events run in order against one shared context, each
//! event wrapped by a stack of middleware in onion order.
pub mod context;
pub mod events;
pub mod chain;
pub mod engine;
