//! A 3x3x3 twisty puzzle modelled as a permutation of its 54 facelets, the
//! algebra of such permutations, a catalogue of named moves built from three
//! generators, and a bounded iterative-deepening solver.
//!
//! Facelets are numbered face by face in the order Up, Front, Right, Down,
//! Back, Left; the nine facelets of a face are read row by row, as seen when
//! facing that face.

pub mod arith;
pub mod laws;
pub mod moves;
pub mod notation;
pub mod perm;
pub mod solver;
pub mod state;

pub use state::{Color, CubeError, Face, State};
