//! The type names every program starts with.

use vstd::prelude::*;

use crate::span::SourceSpan;
use crate::type_check::typed_ast::{Literal, Type};

verus! {

pub struct PreludeType {
    pub name: &'static str,
    pub ty: Type,
}

/// The builtin types, in the order their ids are minted.
pub fn prelude_types() -> (types: Vec<PreludeType>)
    ensures
        types@.len() == 5,
        types@[0].ty@ == Type::Literal(Literal::Int)@,
        types@[1].ty@ == Type::Literal(Literal::Float)@,
        types@[2].ty@ == Type::Literal(Literal::String)@,
        types@[3].ty@ == Type::Literal(Literal::Bool)@,
        types@[4].ty@ == Type::Literal(Literal::Unit)@,
        forall|i: int| 0 <= i < 5 ==> (#[trigger] types@[i]).name@ == spec_type_names()[i],
{
    let types = vec![
        PreludeType { name: "Int", ty: Type::Literal(Literal::Int) },
        PreludeType { name: "Float", ty: Type::Literal(Literal::Float) },
        PreludeType { name: "String", ty: Type::Literal(Literal::String) },
        PreludeType { name: "Bool", ty: Type::Literal(Literal::Bool) },
        PreludeType { name: "Unit", ty: Type::Literal(Literal::Unit) },
    ];
    assert(forall|i: int| 0 <= i < 5 ==> (#[trigger] types@[i]).name@ == spec_type_names()[i]);
    types
}

pub open spec fn spec_type_names() -> Seq<Seq<char>> {
    seq!["Int"@, "Float"@, "String"@, "Bool"@, "Unit"@]
}

/// The builtin type names.
pub fn type_names() -> (names: Vec<&'static str>)
    ensures
        names@.len() == 5,
        forall|i: int| 0 <= i < 5 ==> (#[trigger] names@[i])@ == spec_type_names()[i],
{
    let names = vec!["Int", "Float", "String", "Bool", "Unit"];
    assert(forall|i: int| 0 <= i < 5 ==> (#[trigger] names@[i])@ == spec_type_names()[i]);
    names
}

/// The span given to builtins: they have no site in the source.
pub fn prelude_span() -> (span: SourceSpan)
    ensures
        span == (SourceSpan { offset: 0, len: 0 }),
{
    SourceSpan { offset: 0, len: 0 }
}

} // verus!
