//! Reconciliation and render synchronisation for a native window whose
//! contents are a declarative UI tree.
//!
//! The window task owns a shadow tree that mirrors the description. It
//! applies the mutation batches of the UI engine, recomputes the derived
//! state of the nodes that a batch touched, tracks which nodes became
//! stale, and tells the thread that owns the GPU surface when there is
//! something to paint. Everything here works on plain values: the engine,
//! the box-model solver, the renderer and the host event loop stay with
//! the caller, who performs what the task decides.
//!
//! * [`dirty`]: what must repaint, everything or a set of nodes.
//! * [`state`]: the derived state of a node and how its fields are
//!   computed from attributes.
//! * [`model`], [`mutation`], [`moving`]: the tree as a mathematical value,
//!   and what each mutation does to it.
//! * [`tree`]: the shadow tree itself, with the reducer.
//! * [`reducer`], [`tracking`]: what the reducer and the solver's results
//!   change, and that every change is reported.
//! * [`focus`]: tab navigation.
//! * [`edits`]: the edit stream of a UI engine that builds nodes on a stack.
//! * [`window`]: the window task and the wake-up protocol.

pub mod dirty;
pub mod edits;
pub mod focus;
pub mod model;
pub mod moving;
pub mod mutation;
pub mod reducer;
pub mod state;
pub mod text;
pub mod tracking;
pub mod tree;
pub mod utils;
pub mod window;
