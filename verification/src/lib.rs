//! A schema resolution engine: declarative documents describing typed
//! components, concepts, messages, user-defined types and attributes are
//! loaded into a nested scope tree, every textual cross-reference is resolved
//! to a direct item identifier, and the resolved graph is projected onto a
//! closed set of concrete runtime value kinds.

pub mod arena;
pub mod casing;
pub mod codec;
pub mod err;
pub mod message;
pub mod item;
pub mod prim;
pub mod project;
pub mod resolve;
pub mod scope;
pub mod semantic;
