//! Construction of layered arithmetic circuits for a GKR-style proof system.
//!
//! A circuit is a stack of layers of binary `Add` / `Mul` gates, the output
//! layer first; each gate names two positions in the layer that follows it,
//! and the gates of the last layer name positions among the inputs. The
//! cells from which a circuit is built count their layers the other way:
//! the inputs lie in layer 0, and a gate lies one layer above its operands.
//!
//! Two builders produce such a circuit. [`circuit_builder::CircuitBuilder`]
//! grows a graph cell by cell, derives the layers, refuses duplicate gates
//! and leaves out what no output depends on. Its cell list is modelled in
//! [`cell_list`], and [`layering`] says which circuit a cell list stands for.
//! [`declarative_builder::DeclarativeBuilder`] checks a flat description
//! that names layer and index of every cell, and projects it; [`flat`] holds
//! the facts about such descriptions that its proof rests on. [`round_trip`]
//! leads from a circuit back to a flat description of it.
pub mod cell_list;
pub mod circuit;
pub mod circuit_builder;
pub mod declarative_builder;
pub mod flat;
pub mod layering;
pub mod round_trip;
