//! Model-independent logic of an ONNX inference front end: recognising which
//! model family an ONNX signature belongs to, reading input geometry from it,
//! reading class-name tables, ranking predictions, class-aware non-maxima
//! suppression over precomputed overlaps, and picking annotation colours.
//!
//! Every numeric value that the models produce is a float; those stay with the
//! caller, who hands this library order-preserving integer keys and the outcome
//! of each float comparison instead.
pub mod classes;
pub mod commons;
pub mod detection;
pub mod ranking;
pub mod visualize;
