//! A forward may-taint dataflow analysis over a control-flow graph.
//!
//! The library tracks, for every basic block of a function body, which local
//! variables may carry a value derived from a taint source.  It consists of a
//! bit-vector domain over local indices (`domain`), a model of the
//! instructions the analysis inspects (`ir`), the per-instruction transfer
//! rules (`analysis`), and a worklist fixed-point engine (`engine`).

pub mod analysis;
pub mod domain;
pub mod engine;
pub mod ir;
