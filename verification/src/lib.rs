//! Schema-driven one-hot codec for algebraic data types.
//!
//! A [`schema::Ty`] describes the shape of a value: booleans, the unit
//! shape, wrappers, optionals, fixed-size arrays, structs (which also
//! cover tuples) and tagged unions.  Every shape has a fixed encoding
//! size, a canonical one-hot encoding of each of its values into a flat
//! buffer of scalar slots, and a likelihood read that multiplies the
//! slots of a parameter buffer aligned to the same layout.
//!
//! The size computation, the encoder and the likelihood read all walk
//! the same offset assignment; the lemmas in [`laws`] prove that the
//! three agree, so that the slots the likelihood read consults are
//! exactly the slots the encoder sets.

pub mod schema;
pub mod value;
pub mod codec;
pub mod laws;
pub mod poker;
