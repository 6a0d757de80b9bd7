pub mod agreement;
pub mod binding_table;
pub mod constraints;
pub mod error;
pub mod inference;
pub mod ranking;
pub mod refinement;
pub mod substitution;
pub mod typed_ast;
pub mod typing;
pub mod unification;

use vstd::prelude::*;

pub use error::TypeCheckError;
pub use typed_ast::TypeCheckedProgram;

use crate::binding_resolution::binding_resolved::BindingResolvedProgram;

use binding_table::{attach_types_to_bindings, untyped_reported};
use inference::{
    InferenceCtx, annotates, infer_state, infer_type_of_expression, lemma_subst_keeps_annotation,
};
use substitution::subst_expr;
use typed_ast::exprs_view;
use constraints::{constraints_hold, lemma_inference_constraints_hold};
use typing::{
    all_failure, all_typed, failure_is, infer_all, initial_state, lemma_all_failure_at, run_through,
    lemma_infer_all_failed,
};
use unification::{UNIFY_FUEL, spec_subst};
use crate::binding_resolution::binding_resolved::ResolvedExpression;
use substitution::{lemma_subst_keeps_typing, subsitute_in_expr};
use typed_ast::well_typed;
use typed_ast::TypeCheckedExpression;
use unification::UnificationMap;

verus! {

/// What type checking `program` promises of its outcome `checked`; see [`type_check`].
pub open spec fn type_check_post(program: BindingResolvedProgram, checked: Result<TypeCheckedProgram, Vec<TypeCheckError>>) -> bool {
    &&& (checked matches Ok(p) ==> p.expressions@.len() == program.expressions@.len()
            && p.bindings@.len() == program.bindings@.len() && p.type_bindings@.len()
            == program.type_bindings@.len() && (forall|i: int|
            0 <= i < p.bindings@.len() ==> (#[trigger] p.bindings@[i]).name
                == program.bindings@[i].name && p.bindings@[i].span == program.bindings@[i].span)
            && (forall|i: int|
            0 <= i < p.expressions@.len() ==> (#[trigger] p.expressions@[i]).span
                == program.expressions@[i].span))
    &&& (checked matches Ok(p) ==> forall|i: int|
            0 <= i < p.expressions@.len() ==> annotates(
                (#[trigger] p.expressions@[i])@,
                program.expressions@[i],
            ) && well_typed(p.expressions@[i]@))
    &&& (checked is Ok <==> ({
            let (fin, trees) = infer_all(
                initial_state(program.bindings@.len(), program.type_bindings@.len()),
                program.expressions@,
            );
            trees is Some && all_typed(fin.vars) && all_typed(fin.types)
        }))
    &&& (checked matches Ok(p) ==> ({
            let (fin, trees) = infer_all(
                initial_state(program.bindings@.len(), program.type_bindings@.len()),
                program.expressions@,
            );
            &&& forall|i: int|
                0 <= i < p.expressions@.len() ==> (#[trigger] p.expressions@[i])@ == subst_expr(
                    fin.nodes,
                    trees->Some_0[i],
                )
            &&& forall|i: int|
                0 <= i < p.expressions@.len() ==> constraints_hold(
                    fin.nodes,
                    #[trigger] trees->Some_0[i],
                )
            &&& forall|i: int|
                0 <= i < p.bindings@.len() ==> (#[trigger] p.bindings@[i]).ty@ == spec_subst(
                    fin.nodes,
                    fin.vars[i]->Some_0,
                    UNIFY_FUEL as nat,
                )
            &&& forall|i: int|
                0 <= i < p.type_bindings@.len() ==> (#[trigger] p.type_bindings@[i]).ty@
                    == spec_subst(fin.nodes, fin.types[i]->Some_0, UNIFY_FUEL as nat)
        }))
    &&& (checked matches Err(errors) ==> errors@.len() > 0)
    &&& (checked matches Err(errors) ==> (infer_all(
            initial_state(program.bindings@.len(), program.type_bindings@.len()),
            program.expressions@,
        ).1 is None ==> failure_is(
            errors@[0],
            all_failure(
                initial_state(program.bindings@.len(), program.type_bindings@.len()),
                program.expressions@,
            ),
            program.bindings@,
        )))
    &&& (checked matches Err(errors) ==> (infer_all(
            initial_state(program.bindings@.len(), program.type_bindings@.len()),
            program.expressions@,
        ).1 is None ==> {
            let failures = run_through(
                initial_state(program.bindings@.len(), program.type_bindings@.len()),
                program.expressions@,
            ).1;
            &&& errors@.len() == failures.len()
            &&& forall|j: int|
                0 <= j < failures.len() ==> failure_is(
                    #[trigger] errors@[j],
                    failures[j],
                    program.bindings@,
                )
        }))
    &&& (checked matches Err(errors) ==> ({
            let (fin, trees) = infer_all(
                initial_state(program.bindings@.len(), program.type_bindings@.len()),
                program.expressions@,
            );
            trees is Some ==> errors@.len() == 1 && if !all_typed(fin.vars) {
                untyped_reported(errors@[0], program.bindings@, fin.vars)
            } else {
                untyped_reported(errors@[0], program.type_bindings@, fin.types)
            }
        }))
}

/// Types every top-level expression in order, collecting every failure; on success every
/// binding is paired with its settled type and every type in the tree is substituted. It
/// succeeds exactly when inference of the whole program does and leaves every binding typed;
/// every constraint inference solved then holds in the final map. When inference fails, the
/// errors report, in order, the failure of each expression that fails, each inferred from the
/// state the one before left ([`run_through`]); the first is the failure of the first
/// expression that fails. When inference succeeds but leaves a binding untyped, the one error
/// reported names the first such binding, variables before types.
#[verifier::loop_isolation(false)]
pub fn type_check(program: BindingResolvedProgram) -> (checked: Result<
    TypeCheckedProgram,
    Vec<TypeCheckError>,
>)
    requires
        program.type_bindings@.len() >= 5,
    ensures
        type_check_post(program, checked),

{
    let BindingResolvedProgram { expressions, bindings, type_bindings } = program;
    let mut inference_ctx = InferenceCtx::new(bindings.len(), type_bindings.len());
    let mut unification_map = UnificationMap::new();
    let ghost st0 = initial_state(bindings@.len(), type_bindings@.len());
    let ghost es = expressions@;
    proof {
        assert(infer_state(inference_ctx, unification_map) == st0);
        assert(es.take(0) =~= Seq::<ResolvedExpression>::empty());
    }
    let mut typed: Vec<TypeCheckedExpression> = Vec::new();
    let mut errors: Vec<TypeCheckError> = Vec::new();
    let mut i: usize = 0;
    while i < expressions.len()
        invariant
            0 <= i <= expressions.len(),
            inference_ctx.sizes() == (bindings@.len(), type_bindings@.len()),
            errors@.len() == 0 ==> typed@.len() == i,
            es == expressions@,
            errors@.len() == 0 <==> infer_all(st0, es.take(i as int)).1 is Some,
            errors@.len() > 0 ==> failure_is(errors@[0], all_failure(st0, es), bindings@),
            run_through(st0, es.take(i as int)).0 == infer_state(inference_ctx, unification_map),
            run_through(st0, es.take(i as int)).1.len() == errors@.len(),
            forall|j: int|
                0 <= j < errors@.len() ==> failure_is(
                    #[trigger] errors@[j],
                    run_through(st0, es.take(i as int)).1[j],
                    bindings@,
                ),
            errors@.len() == 0 ==> infer_all(st0, es.take(i as int)) == (
                infer_state(inference_ctx, unification_map),
                Some(exprs_view(typed@)),
            ),
            errors@.len() == 0 ==> forall|j: int|
                0 <= j < i ==> (#[trigger] typed@[j]).span == expressions@[j].span && annotates(
                    typed@[j]@,
                    expressions@[j],
                ) && well_typed(typed@[j]@),
        decreases expressions.len() - i,
    {
        proof {
            assert(es.take(i + 1).drop_last() =~= es.take(i as int));
            assert(es.take(i + 1).last() == es[i as int]);
            if errors@.len() > 0 {
                lemma_infer_all_failed(st0, es, i as int, i + 1);
            }
        }
        let ghost done = exprs_view(typed@);
        let ghost before_errors = errors@;
        let ghost st_i = infer_state(inference_ctx, unification_map);
        match infer_type_of_expression(
            &expressions[i],
            &mut inference_ctx,
            &mut unification_map,
            &bindings,
        ) {
            Ok(expression) => {
                let ghost v = expression@;
                typed.push(expression);
                proof {
                    assert(exprs_view(typed@) =~= done.push(v));
                }
            },
            Err(error) => {
                proof {
                    if errors@.len() == 0 {
                        lemma_all_failure_at(st0, es, i as int, es.len() as int);
                        assert(es.take(es.len() as int) =~= es);
                    }
                }
                errors.push(error);
                proof {
                    assert forall|j: int| 0 <= j < errors@.len() implies failure_is(
                        #[trigger] errors@[j],
                        run_through(st0, es.take(i + 1)).1[j],
                        bindings@,
                    ) by {
                        if j < before_errors.len() {
                            assert(errors@[j] == before_errors[j]);
                        }
                    }
                }
            },
        }
        i = i + 1;
    }
    proof {
        assert(es.take(es.len() as int) =~= es);
    }
    if errors.len() > 0 {
        return Err(errors);
    }
    assert(infer_all(st0, es).1 is Some);
    let variable_bindings_with_types = match attach_types_to_bindings(
        bindings,
        &inference_ctx.variable_env,
        &unification_map,
    ) {
        Ok(b) => b,
        Err(err) => {
            let errors = vec![err];
            assert(errors@[0] == err);
            return Err(errors);
        },
    };
    proof {
        lemma_inference_constraints_hold(st0, es);
    }
    let type_bindings_with_types = match attach_types_to_bindings(
        type_bindings,
        &inference_ctx.type_env,
        &unification_map,
    ) {
        Ok(b) => b,
        Err(err) => {
            let errors = vec![err];
            assert(errors@[0] == err);
            return Err(errors);
        },
    };
    let mut subsituted_expressions: Vec<TypeCheckedExpression> = Vec::new();
    let mut k: usize = 0;
    while k < typed.len()
        invariant
            0 <= k <= typed.len(),
            subsituted_expressions@.len() == k,
            forall|j: int|
                0 <= j < k ==> (#[trigger] subsituted_expressions@[j])@ == subst_expr(
                    unification_map.nodes(),
                    typed@[j]@,
                ),
            forall|j: int|
                0 <= j < k ==> (#[trigger] subsituted_expressions@[j]).span == typed@[j].span
                    && annotates(subsituted_expressions@[j]@, expressions@[j]) && well_typed(
                    subsituted_expressions@[j]@,
                ),
        decreases typed.len() - k,
    {
        proof {
            lemma_subst_keeps_annotation(unification_map.nodes(), typed@[k as int]@, expressions@[k as int]);
            lemma_subst_keeps_typing(unification_map.nodes(), typed@[k as int]@);
        }
        subsituted_expressions.push(subsitute_in_expr(&unification_map, &typed[k]));
        k = k + 1;
    }
    Ok(
        TypeCheckedProgram {
            expressions: subsituted_expressions,
            bindings: variable_bindings_with_types,
            type_bindings: type_bindings_with_types,
        },
    )
}

} // verus!
