//! Sway: the topology and bookkeeping of a 2D procedural animation engine.
//!
//! The engine moves nodes with Verlet integration, keeps them together with
//! distance constraints, and draws a skin around chains of nodes. The parts of
//! it that decide *which* nodes are linked, grouped, chained, paired for
//! collision tests or indexed in a mesh live here, with their contracts.
//! Positions and the floating-point physics around them live in the
//! application layer.

pub mod entity;
pub mod graph;
pub mod node;
pub mod limbs;
pub mod mesh;
pub mod order;
pub mod chains;
pub mod broadphase;
pub mod cell;
pub mod scene;
pub mod editor;
pub mod steering;
