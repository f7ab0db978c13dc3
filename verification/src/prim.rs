//! The fixed primitive-type vocabulary of the schema language and the closed
//! set of concrete runtime value kinds it projects onto.
//!
//! A schema `Primitive` type carries one of the names recognized by
//! [`parse_primitive`]; projection maps it to a [`ConcreteKind`], and the
//! synthesized list-form and optional-form of the primitive map to the
//! corresponding container kinds.

use vstd::prelude::*;
use vstd::string::StringExecFns;

verus! {

/// A name from the fixed primitive vocabulary: booleans, integer widths,
/// floating widths (named only; no floating-point value ever enters the
/// engine), strings, math types and the entity identifier.
#[derive(Debug, Clone, Copy, PartialEq, Eq, Structural)]
pub enum PrimitiveKind {
    Empty,
    Bool,
    EntityId,
    F32,
    F64,
    Mat4,
    I32,
    Quat,
    Str,
    U32,
    U64,
    Vec2,
    Vec3,
    Vec4,
    Uvec2,
    Uvec3,
    Uvec4,
}

/// A concrete runtime value kind: a primitive stored as a scalar, as a list
/// of that primitive, or as an optional of that primitive.
#[derive(Debug, Clone, Copy, PartialEq, Eq, Structural)]
pub enum ConcreteKind {
    Scalar(PrimitiveKind),
    VecOf(PrimitiveKind),
    OptionOf(PrimitiveKind),
}

/// The name-to-kind table of the primitive vocabulary, on character
/// sequences. `None` for a name outside the vocabulary.
pub open spec fn spec_parse_primitive(s: Seq<char>) -> Option<PrimitiveKind> {
    if s == "Empty"@ {
        Some(PrimitiveKind::Empty)
    } else if s == "Bool"@ {
        Some(PrimitiveKind::Bool)
    } else if s == "EntityId"@ {
        Some(PrimitiveKind::EntityId)
    } else if s == "F32"@ {
        Some(PrimitiveKind::F32)
    } else if s == "F64"@ {
        Some(PrimitiveKind::F64)
    } else if s == "Mat4"@ {
        Some(PrimitiveKind::Mat4)
    } else if s == "I32"@ {
        Some(PrimitiveKind::I32)
    } else if s == "Quat"@ {
        Some(PrimitiveKind::Quat)
    } else if s == "String"@ {
        Some(PrimitiveKind::Str)
    } else if s == "U32"@ {
        Some(PrimitiveKind::U32)
    } else if s == "U64"@ {
        Some(PrimitiveKind::U64)
    } else if s == "Vec2"@ {
        Some(PrimitiveKind::Vec2)
    } else if s == "Vec3"@ {
        Some(PrimitiveKind::Vec3)
    } else if s == "Vec4"@ {
        Some(PrimitiveKind::Vec4)
    } else if s == "Uvec2"@ {
        Some(PrimitiveKind::Uvec2)
    } else if s == "Uvec3"@ {
        Some(PrimitiveKind::Uvec3)
    } else if s == "Uvec4"@ {
        Some(PrimitiveKind::Uvec4)
    } else {
        None
    }
}

/// Looks a primitive name up in the fixed vocabulary.
pub fn parse_primitive(name: &String) -> (r: Option<PrimitiveKind>)
    ensures
        r == spec_parse_primitive(name@),
{
    if *name == String::from_str("Empty") {
        Some(PrimitiveKind::Empty)
    } else if *name == String::from_str("Bool") {
        Some(PrimitiveKind::Bool)
    } else if *name == String::from_str("EntityId") {
        Some(PrimitiveKind::EntityId)
    } else if *name == String::from_str("F32") {
        Some(PrimitiveKind::F32)
    } else if *name == String::from_str("F64") {
        Some(PrimitiveKind::F64)
    } else if *name == String::from_str("Mat4") {
        Some(PrimitiveKind::Mat4)
    } else if *name == String::from_str("I32") {
        Some(PrimitiveKind::I32)
    } else if *name == String::from_str("Quat") {
        Some(PrimitiveKind::Quat)
    } else if *name == String::from_str("String") {
        Some(PrimitiveKind::Str)
    } else if *name == String::from_str("U32") {
        Some(PrimitiveKind::U32)
    } else if *name == String::from_str("U64") {
        Some(PrimitiveKind::U64)
    } else if *name == String::from_str("Vec2") {
        Some(PrimitiveKind::Vec2)
    } else if *name == String::from_str("Vec3") {
        Some(PrimitiveKind::Vec3)
    } else if *name == String::from_str("Vec4") {
        Some(PrimitiveKind::Vec4)
    } else if *name == String::from_str("Uvec2") {
        Some(PrimitiveKind::Uvec2)
    } else if *name == String::from_str("Uvec3") {
        Some(PrimitiveKind::Uvec3)
    } else if *name == String::from_str("Uvec4") {
        Some(PrimitiveKind::Uvec4)
    } else {
        None
    }
}

impl ConcreteKind {
    /// The list-form of a scalar kind.
    pub fn to_vec_kind(pk: PrimitiveKind) -> (r: ConcreteKind)
        ensures
            r == ConcreteKind::VecOf(pk),
    {
        ConcreteKind::VecOf(pk)
    }

    /// The optional-form of a scalar kind.
    pub fn to_option_kind(pk: PrimitiveKind) -> (r: ConcreteKind)
        ensures
            r == ConcreteKind::OptionOf(pk),
    {
        ConcreteKind::OptionOf(pk)
    }
}

} // verus!
