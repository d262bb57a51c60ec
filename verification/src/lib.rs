//! A behavior-tree runtime: immutable, shareable tree definitions, a typed
//! blackboard, and a tick engine whose decisions are verified.
pub mod assets;
pub mod blackboard;
pub mod builder;
pub mod components;
pub mod debug;
pub mod definition;
pub mod execution;
pub mod float_bits;
pub mod handlers;
pub mod messages;
pub mod metrics;
pub mod nodes;
pub mod resources;
pub mod runtime;
pub mod systems;
pub mod text;
