//! The error taxonomy of the resolution engine.
//!
//! Every failure is surfaced to the caller as a value of [`SemanticError`];
//! nothing is reported through a silent default or a partial result.

use vstd::prelude::*;

verus! {

/// An error raised while loading, resolving or projecting a schema graph.
#[derive(Debug, Clone)]
pub enum SemanticError {
    /// An arena lookup was made with an identifier that no item carries.
    /// Indicates an internal invariant violation; always fatal.
    UnknownId { id: usize },
    /// A reference cell's raw path matched no item of the expected kind in
    /// any enclosing scope once the resolution fixed point was reached.
    /// `path` is the raw path exactly as recorded at parse time; `origin` is
    /// the fully qualified path of the referencing item.
    UnknownPath { path: String, origin: String },
    /// Two items of the same kind share a short name within one scope.
    /// Rejected while a document is added, before resolution.
    DuplicateName { name: String },
    /// A primitive type name outside the fixed vocabulary; a configuration
    /// error, fatal.
    UnrecognizedPrimitive { name: String },
    /// A component's resolved value type was never classified by the
    /// concrete-kind passes; an internal-consistency error, fatal.
    UnclassifiedType { id: usize },
}

} // verus!
