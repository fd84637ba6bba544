//! Conversion of a basic-block IR, with effect tokens threaded as ordinary
//! SSA values, into flat continuations: one self-contained continuation per
//! block, whose foreign inputs arrive as parameters and effect parameters.
//!
//! - `common`, `basicblock`, `flatcont`: the two IRs and what they share.
//! - `model`, `semantics`: their mathematical models and what the
//!   conversion computes, stated over them.
//! - `carry`, `relay`: which values a block hands on to blocks further
//!   down, as a model and as a verified table.
//! - `bb2flatcont`: the conversion itself, verified against `semantics`.
//! - `validity`: deciding whether a graph is one the conversion accepts.
//! - `laws`, `supply`, `invariance`, `naming`, `fields`, `locality`:
//!   properties of the conversion as a whole.

pub mod common;
pub mod model;
pub mod basicblock;
pub mod flatcont;
pub mod semantics;
pub mod carry;
pub mod supply;
pub mod relay;
pub mod bb2flatcont;
pub mod laws;
pub mod invariance;
pub mod naming;
pub mod fields;
pub mod locality;
pub mod validity;

pub use crate::common::{
    AtomicRMWCode, DataId, ExternDecl, ExternId, ICond, Opcode, RawType, StaticData, Visibility,
};
pub use crate::flatcont::{
    ContId, ExportedSymbol, FlatContGraph, FlatContinuation, Node, NodeId, Terminator,
};
