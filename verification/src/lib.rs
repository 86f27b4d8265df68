//! Verified core of a graph-based binary format (de)serializer generator.
//!
//! A schema is a graph of nodes: serial-side segments and ranges, the values
//! taken from them, and the Rust-side objects built from those values.  The
//! library builds and checks the graph, plans the order of the generated read
//! and write code, and holds the run-time helpers that generated code calls.
pub mod bvec;
pub mod error;
pub mod node_int;
pub mod traverse;
pub mod range;
pub mod runtime;
pub mod schema;
pub mod plan;
pub mod scope;
pub mod definitions;

use vstd::prelude::*;

verus! {

/// An empty schema to define (de)serializers in.
pub fn new() -> (out: schema::Schema)
    ensures
        out.wf(),
        out.is_empty(),
{
    schema::Schema::new()
}

} // verus!
