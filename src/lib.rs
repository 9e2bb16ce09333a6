//! Polyline simplification in the Ramer-Douglas-Peucker style.
//!
//! The verified part of the library is the work-list engine that decides
//! which positions of a polyline survive, and the selection of the kept
//! elements. How far a point lies from a segment is measured by the caller
//! and handed to the engine as the outcome of each step.
pub mod subsequence;
pub mod worklist;
