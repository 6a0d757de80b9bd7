//! Trestle: a small functional language with a parser, a binding resolver,
//! a Hindley–Milner style type checker and a tree-walking evaluator.

pub mod binding_resolution;
pub mod diagnostics;
pub mod dto;
pub mod evaluate;
pub mod parse;
pub mod playground;
pub mod prelude;
pub mod render;
mod sharing;
pub mod span;
pub mod text;
pub mod type_check;

use vstd::prelude::*;

use crate::binding_resolution::BindingResolutionError;
use crate::binding_resolution::{
    failures_view, program_names_bound, resolve_progress, top_level_lets_distinct,
};
use crate::parse::ast::ParsedProgram;
use crate::type_check::{TypeCheckError, TypeCheckedProgram, type_check_post};
use crate::binding_resolution::binding_resolved::BindingResolvedProgram;
use crate::binding_resolution::resolve_post;
use crate::type_check::typed_ast::well_typed;

verus! {

/// Why a parsed program was rejected before it could run: every failure of the first
/// phase that failed.
#[derive(Debug)]
pub enum AnalysisError {
    BindingResolution(Vec<BindingResolutionError>),
    TypeCheck(Vec<TypeCheckError>),
}

/// Resolves names, then type-checks; type checking runs only on a program whose names all
/// resolved. The outcome is resolution's failure, or else exactly what type checking the
/// resolved program gives: its program or its errors.
pub fn analyse(program: ParsedProgram) -> (analysed: Result<TypeCheckedProgram, AnalysisError>)
    ensures
        analysed matches Ok(p) ==> p.expressions@.len() == program.expressions@.len() && (
        forall|i: int|
            0 <= i < p.expressions@.len() ==> (#[trigger] p.expressions@[i]).span
                == program.expressions@[i].span && well_typed(p.expressions@[i]@)),
        analysed matches Err(AnalysisError::BindingResolution(errors)) ==> errors@.len() > 0
            && failures_view(errors@) == resolve_progress(program.expressions@).failures,
        analysed is Err && analysed->Err_0 is BindingResolution <==> !(top_level_lets_distinct(
            program.expressions@,
            program.expressions@.len() as int,
        ) && program_names_bound(program.expressions@, program.expressions@.len() as int)),
        analysed matches Err(AnalysisError::TypeCheck(errors)) ==> errors@.len() > 0,
        analysed matches Err(AnalysisError::BindingResolution(errors)) ==> resolve_post(
            program,
            Err(errors),
        ),
        analysed matches Ok(checked) ==> exists|resolved: BindingResolvedProgram|
            #[trigger] resolve_post(program, Ok(resolved)) && type_check_post(resolved, Ok(checked)),
        analysed matches Err(AnalysisError::TypeCheck(errors)) ==> exists|
            resolved: BindingResolvedProgram,
        |
            #[trigger] resolve_post(program, Ok(resolved)) && type_check_post(
                resolved,
                Err(errors),
            ),
{
    let resolved = match binding_resolution::resolve(program) {
        Ok(resolved) => resolved,
        Err(errors) => {
            return Err(AnalysisError::BindingResolution(errors));
        },
    };
    let ghost given = resolved;
    let checked = type_check::type_check(resolved);
    proof {
        assert(resolve_post(program, Ok(given)) && type_check_post(given, checked));
    }
    match checked {
        Ok(checked) => {
            assert(resolve_post(program, Ok(given)) && type_check_post(given, Ok(checked)));
            Ok(checked)
        },
        Err(errors) => {
            assert(resolve_post(program, Ok(given)) && type_check_post(given, Err(errors)));
            Err(AnalysisError::TypeCheck(errors))
        },
    }
}

} // verus!
