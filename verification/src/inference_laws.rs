//! Inference only goes on: whatever node is inferred, all that was found out before is kept, as
//! long as that holds of the nodes it is made of.

use crate::access::{
    assigned, field_found, place_inside, references_inferred, row_with, Assignment, MemberAccess,
};
use crate::branching::{
    effects_added, effects_handled_by, first_branch, handle_begun, handle_finished, infer_branches,
    infer_handlers, match_inferred, next_branch, next_handler, results_joined, Branches, Handlers,
    Resumed,
};
use crate::cache::{
    lookup, Binding, Cache, Constraint, Def, DefinitionInfoId, Issue, Location, Reason, Report,
    Required, Scheme, INITIAL_LEVEL,
};
use crate::declarations::{
    bound_declaration, bound_declarations, declared_at, injecting, own_effect, EffectDefinition,
    Extern, TraitDefinition,
};
use crate::definitions::{bound_capture, bound_captures, continuation_ty, Captured};
use crate::effect_sets::{combined, flat, lemma_flat_end, missing_from, EffectRow};
use crate::expressions::{
    infer_and_combine, infer_statements, reference_typed, If, Import, Literal, NamedConstructor,
    Reference, Return, Sequence, TypeAnnotation, TypeDefinition,
};
use crate::functions::{
    applied_to, body_inferred, function_ty, infer_arguments, locations, FunctionCall, Lambda,
};
use crate::instantiate::{fresh_names, instance, missing_names, reference_to, Mutability};
use crate::patterns::{
    bound_pattern, bound_patterns, bound_variable, for_each, for_each_variable, fresh_types,
    visits_of, Pat, PatVar, Visit,
};
use crate::programs::program_inferred;
use crate::progress::{
    gains, goes_on, law_gains_further, law_goes_on_further, law_unification_goes_on,
    law_unify_goes_on, lemma_bind_goes_on, lemma_definition_goes_on, lemma_fresh_goes_on,
    lemma_issue_goes_on, lemma_perform_goes_on, lemma_report_goes_on,
};
use crate::results::{bool_ty, combined_results, pair_ty, result_of, tuple_ty, unit_ty, Typing};
use crate::rules::{
    arguments_unified, assignment_reported, at_one, call_reported, follow_in, least, mutable_ref,
    place_checked, Place,
};
use crate::solve::{after_unify, fresh_unification, mismatch};
use crate::tree::{inferred, Declared, Expression, Inferable, Outcome, Referred, Tree};
use crate::types::{LetBindingLevel, Ty, TypeVariableId};
use crate::typevars::vars_in_constraints;
use crate::unify::State;
use crate::unify_laws::is_proper;
use crate::values::{looked_up, variable_used, Looked};
use vstd::prelude::*;

verus! {

/// Whether an outcome, if there is one, keeps all that was found out before.
pub open spec fn outcome_goes_on(c: Cache, outcome: Option<Outcome>) -> bool {
    outcome matches Some(o) ==> goes_on(c, o.cache)
}

/// Whether inferring any node of the kind keeps all that was found out before.
pub open spec fn only_goes_on<A: Inferable>() -> bool {
    forall|t: Tree, c: Cache| outcome_goes_on(c, #[trigger] A::rule(t, c))
}

pub proof fn lemma_inferred<A: Inferable>(t: Tree, c: Cache)
    requires
        only_goes_on::<A>(),
    ensures
        inferred::<A>(t, c) matches Some(o) ==> goes_on(c, o.cache),
{
    let _ = A::rule(t, c);
}

/// Joining two rows of effects keeps what there was.
pub proof fn law_combining_goes_on(a: EffectRow, b: EffectRow, c: Cache)
    ensures
        combined(a, b, c) matches Some((_, c1)) ==> goes_on(c, c1),
{
    lemma_flat_end(a, c);
    lemma_flat_end(b, c);
    if let (Some((xs, Some(x))), Some((ys, Some(y)))) = (flat(a, c), flat(b, c)) {
        if x != y {
            let z = c.next_id();
            let c1 = c.fresh(c.current_level);
            let t1 = Ty::Effects(missing_from(ys, xs), Some(z));
            let t2 = Ty::Effects(missing_from(xs, ys), Some(z));
            lemma_fresh_goes_on(c, c.current_level);
            lemma_bind_goes_on(c1, x, t1);
            law_goes_on_further(c, c1, c1.bind(x, t1));
            lemma_bind_goes_on(c1.bind(x, t1), y, t2);
            law_goes_on_further(c, c1.bind(x, t1), c1.bind(x, t1).bind(y, t2));
        }
    }
}

pub proof fn lemma_results(a: Typing, b: Typing, c: Cache)
    ensures
        combined_results(a, b, c) matches Some((_, c1)) ==> goes_on(c, c1),
{
    law_combining_goes_on(a.effects, b.effects, c);
}

pub proof fn lemma_infer_and_combine<A: Inferable>(part: Tree, so_far: Typing, c: Cache)
    requires
        only_goes_on::<A>(),
    ensures
        infer_and_combine::<A>(part, so_far, c) matches Some((_, _, _, c1)) ==> goes_on(c, c1),
{
    lemma_inferred::<A>(part, c);
    if let Some(o) = inferred::<A>(part, c) {
        lemma_results(so_far, o.result, o.cache);
        if let Some((_, c1)) = combined_results(so_far, o.result, o.cache) {
            law_goes_on_further(c, o.cache, c1);
        }
    }
}

/// Making fresh variables keeps what there was.
pub proof fn lemma_fresh_types(n: nat, c: Cache)
    ensures
        goes_on(c, fresh_types(n, c).1),
    decreases n,
{
    if n > 0 {
        lemma_fresh_types((n - 1) as nat, c);
        let c1 = fresh_types((n - 1) as nat, c).1;
        lemma_fresh_goes_on(c1, c.current_level);
        law_goes_on_further(c, c1, c1.fresh(c.current_level));
    }
}

pub proof fn lemma_names(
    n: nat,
    vars: Seq<TypeVariableId>,
    m: Map<usize, TypeVariableId>,
    c: Cache,
)
    ensures
        goes_on(c, fresh_names(n, vars, m, c).1),
        goes_on(c, missing_names(n, vars, m, c).1),
        fresh_names(n, vars, m, c).1.definition_infos == c.definition_infos,
        missing_names(n, vars, m, c).1.definition_infos == c.definition_infos,
    decreases n,
{
    if n > 0 {
        lemma_names((n - 1) as nat, vars, m, c);
        let c1 = fresh_names((n - 1) as nat, vars, m, c).1;
        lemma_fresh_goes_on(c1, c.current_level);
        law_goes_on_further(c, c1, c1.fresh(c.current_level));
        let c2 = missing_names((n - 1) as nat, vars, m, c).1;
        lemma_fresh_goes_on(c2, c.current_level);
        law_goes_on_further(c, c2, c2.fresh(c.current_level));
    }
}

/// Instantiating a type keeps what there was, and all that is known of definitions.
pub proof fn law_instantiating_goes_on(scheme: Scheme, cs: Seq<Constraint>, c: Cache)
    ensures
        instance(scheme, cs, c) matches Some(i) ==> goes_on(c, i.cache) && i.cache.definition_infos
            == c.definition_infos,
{
    if let Scheme::Poly(vars, _) = scheme {
        lemma_names(vars.len(), vars, Map::empty(), c);
        let (m1, c1) = fresh_names(vars.len(), vars, Map::empty(), c);
        if let Some(found) = vars_in_constraints(cs.len(), cs, c1) {
            lemma_names(found.len(), found, m1, c1);
            law_goes_on_further(c, c1, missing_names(found.len(), found, m1, c1).1);
        }
    }
}

pub proof fn lemma_bound_variable(
    v: PatVar,
    t: Ty,
    required: Seq<Required>,
    generalize: bool,
    c: Cache,
)
    ensures
        bound_variable(v, t, required, generalize, c) matches Some((_, c1)) ==> goes_on(c, c1),
{
    if let Some((_, end)) = bound_variable(v, t, required, generalize, c) {
        let id = v.definition->0;
        let before = match c.definition_infos[id.0 as int].typ {
            Some(scheme) => {
                let reason = Reason::VariableDoesNotMatchDeclaredType;
                law_unify_goes_on(scheme.body(), t, v.location, reason, c);
                after_unify(scheme.body(), t, v.location, reason, c)->0
            },
            None => c,
        };
        lemma_definition_goes_on(before, id, end.definition_infos[id.0 as int]);
        assert(end == before.with_definition(id, end.definition_infos[id.0 as int]));
        law_goes_on_further(c, before, end);
    }
}

/// Binding a pattern to a type keeps what there was.
pub proof fn law_binding_goes_on(
    p: Pat,
    t: Ty,
    required: Seq<Required>,
    generalize: bool,
    c: Cache,
)
    ensures
        bound_pattern(p, t, required, generalize, c) matches Some((_, c1)) ==> goes_on(c, c1),
    decreases p,
{
    match p {
        Pat::Literal(true, location, _) => {
            law_unify_goes_on(unit_ty(), t, location, Reason::ExpectedUnitTypeFromPattern, c);
        },
        Pat::Literal(false, location, _) => {
            lemma_report_goes_on(c, location, Report::PatternIsNotIrrefutable);
        },
        Pat::Variable(v) => lemma_bound_variable(v, t, required, generalize, c),
        Pat::Annotation(lhs, typ, location) => {
            if let Some(declared) = typ {
                let reason = Reason::PatternTypeDoesNotMatchAnnotatedType;
                law_unify_goes_on(t, declared, location, reason, c);
                if let Some(c1) = after_unify(t, declared, location, reason, c) {
                    law_binding_goes_on(*lhs, t, required, generalize, c1);
                    if let Some((_, c2)) = bound_pattern(*lhs, t, required, generalize, c1) {
                        law_goes_on_further(c, c1, c2);
                    }
                }
            }
        },
        Pat::Call { is_pair: true, args, location, .. } => {
            let (elements, c1) = fresh_types(args.len(), c);
            lemma_fresh_types(args.len(), c);
            let reason = Reason::ExpectedPairTypeFromPattern;
            law_unify_goes_on(pair_ty(elements), t, location, reason, c1);
            if let Some(c2) = after_unify(pair_ty(elements), t, location, reason, c1) {
                let c3 = c2.fresh(c2.current_level);
                lemma_fresh_goes_on(c2, c2.current_level);
                law_goes_on_further(c, c1, c2);
                law_goes_on_further(c, c2, c3);
                lemma_bound_patterns(args, elements, required, generalize, c3);
                if let Some((_, c4)) = bound_patterns(args, elements, required, generalize, c3) {
                    law_goes_on_further(c, c3, c4);
                }
            }
        },
        _ => {
            lemma_report_goes_on(
                c,
                p.location(),
                Report::InvalidSyntaxInIrrefutablePattern,
            );
        },
    }
}

pub proof fn lemma_bound_patterns(
    ps: Seq<Pat>,
    ts: Seq<Ty>,
    required: Seq<Required>,
    generalize: bool,
    c: Cache,
)
    ensures
        bound_patterns(ps, ts, required, generalize, c) matches Some((_, c1)) ==> goes_on(c, c1),
    decreases ps,
{
    if ps.len() > 0 {
        let front = ps.subrange(0, ps.len() - 1);
        let last = ps[ps.len() - 1];
        let t = ts[ps.len() - 1];
        lemma_bound_patterns(front, ts, required, generalize, c);
        if let Some((_, c1)) = bound_patterns(front, ts, required, generalize, c) {
            law_binding_goes_on(last, t, required, generalize, c1);
            if let Some((_, c2)) = bound_pattern(last, t, required, generalize, c1) {
                law_goes_on_further(c, c1, c2);
            }
        }
    }
}

pub proof fn lemma_bound_captures(n: nat, vs: Seq<Captured>, c: Cache)
    ensures
        bound_captures(n, vs, c) matches Some((_, c1)) ==> goes_on(c, c1),
    decreases n,
{
    if n > 0 {
        lemma_bound_captures((n - 1) as nat, vs, c);
        if let Some((_, c1)) = bound_captures((n - 1) as nat, vs, c) {
            let v = vs[n - 1];
            if let Some((_, c2)) = bound_capture(v, c1) {
                if let Some(scheme) = c1.definition_infos[v.from.0 as int].typ {
                    law_instantiating_goes_on(scheme, Seq::empty(), c1);
                    let i = instance(scheme, Seq::empty(), c1)->0;
                    let def = c2.definition_infos[v.to.0 as int];
                    lemma_definition_goes_on(i.cache, v.to, def);
                    assert(c2 == i.cache.with_definition(v.to, def));
                    law_goes_on_further(c1, i.cache, c2);
                }
                law_goes_on_further(c, c1, c2);
            }
        }
    }
}

/// Inferring a literal only goes on.
pub proof fn law_literal_goes_on()
    ensures
        only_goes_on::<Literal>(),
{
}

/// Inferring a type definition or an import only goes on.
pub proof fn law_plain_goes_on()
    ensures
        only_goes_on::<TypeDefinition>(),
        only_goes_on::<Import>(),
{
}

/// Inferring an annotated expression only goes on.
pub proof fn law_annotation_goes_on<A: Expression>()
    requires
        only_goes_on::<A>(),
    ensures
        only_goes_on::<TypeAnnotation<A>>(),
{
    assert forall|t: Tree, c: Cache| outcome_goes_on(
        c,
        #[trigger] TypeAnnotation::<A>::rule(t, c),
    ) by {
        if let Tree::TypeAnnotation { lhs, location, typ: Some(declared) } = t {
            lemma_inferred::<A>(*lhs, c);
            if let Some(o) = inferred::<A>(*lhs, c) {
                let reason = Reason::DoesNotMatchAnnotatedType;
                law_unify_goes_on(declared, o.result.typ, location, reason, o.cache);
                if let Some(c1) = after_unify(declared, o.result.typ, location, reason, o.cache) {
                    law_goes_on_further(c, o.cache, c1);
                }
            }
        }
    }
}

/// Inferring a conditional only goes on.
pub proof fn law_if_goes_on<A: Expression>()
    requires
        only_goes_on::<A>(),
    ensures
        only_goes_on::<If<A>>(),
{
    assert forall|t: Tree, c: Cache| outcome_goes_on(c, #[trigger] If::<A>::rule(t, c)) by {
        let outcome = If::<A>::rule(t, c);
        if let (Tree::If { condition, consequence, otherwise, location, .. }, Some(end)) = (
            t,
            outcome,
        ) {
            let o = inferred::<A>(*condition, c)->0;
            let place = o.tree.location_of();
            let reason = Reason::NonBoolInCondition;
            lemma_inferred::<A>(*condition, c);
            law_unify_goes_on(bool_ty(), o.result.typ, place, reason, o.cache);
            let c1 = after_unify(bool_ty(), o.result.typ, place, reason, o.cache)->0;
            lemma_infer_and_combine::<A>(*consequence, o.result, c1);
            let (_, joint, first, c2) = infer_and_combine::<A>(*consequence, o.result, c1)->0;
            lemma_infer_and_combine::<A>(*otherwise, joint, c2);
            let (_, _, second, c3) = infer_and_combine::<A>(*otherwise, joint, c2)->0;
            law_unify_goes_on(first.typ, second.typ, location, Reason::IfBranchMismatch, c3);
            law_goes_on_further(c, o.cache, c1);
            law_goes_on_further(c, c1, c2);
            law_goes_on_further(c, c2, c3);
            law_goes_on_further(c, c3, end.cache);
        }
    }
}

/// Inferring a return only goes on.
pub proof fn law_return_goes_on<A: Expression>()
    requires
        only_goes_on::<A>(),
    ensures
        only_goes_on::<Return<A>>(),
{
    assert forall|t: Tree, c: Cache| outcome_goes_on(c, #[trigger] Return::<A>::rule(t, c)) by {
        let outcome = Return::<A>::rule(t, c);
        if let (Tree::Return { expression, .. }, Some(end)) = (t, outcome) {
            lemma_inferred::<A>(*expression, c);
            let o = inferred::<A>(*expression, c)->0;
            lemma_fresh_goes_on(o.cache, o.cache.current_level);
            law_goes_on_further(c, o.cache, o.cache.fresh(o.cache.current_level));
        }
    }
}

pub proof fn lemma_statements<A: Inferable>(n: nat, ts: Seq<Tree>, so_far: Typing, c: Cache)
    requires
        only_goes_on::<A>(),
    ensures
        infer_statements::<A>(n, ts, so_far, c) matches Some((_, _, _, c1)) ==> goes_on(c, c1),
    decreases n,
{
    if n > 0 {
        lemma_statements::<A>((n - 1) as nat, ts, so_far, c);
        if let Some((_, joint, _, c1)) = infer_statements::<A>((n - 1) as nat, ts, so_far, c) {
            lemma_infer_and_combine::<A>(ts[n - 1], joint, c1);
            if let Some((_, _, _, c2)) = infer_and_combine::<A>(ts[n - 1], joint, c1) {
                law_goes_on_further(c, c1, c2);
            }
        }
    }
}

/// Inferring a sequence only goes on.
pub proof fn law_sequence_goes_on<A: Expression>()
    requires
        only_goes_on::<A>(),
    ensures
        only_goes_on::<Sequence<A>>(),
{
    assert forall|t: Tree, c: Cache| outcome_goes_on(c, #[trigger] Sequence::<A>::rule(t, c)) by {
        let outcome = Sequence::<A>::rule(t, c);
        if let (Tree::Sequence { statements, .. }, Some(end)) = (t, outcome) {
            let (start, c1) = result_of(unit_ty(), Seq::empty(), c);
            lemma_fresh_goes_on(c, c.current_level);
            lemma_statements::<A>(statements.len(), statements, start, c1);
            law_goes_on_further(c, c1, end.cache);
        }
    }
}

/// Inferring a named constructor only goes on.
pub proof fn law_named_constructor_goes_on<A: Expression>()
    requires
        only_goes_on::<A>(),
    ensures
        only_goes_on::<NamedConstructor<A>>(),
{
    assert forall|t: Tree, c: Cache| outcome_goes_on(
        c,
        #[trigger] NamedConstructor::<A>::rule(t, c),
    ) by {
        if let Tree::NamedConstructor { sequence, .. } = t {
            lemma_inferred::<A>(*sequence, c);
        }
    }
}

pub proof fn lemma_place(place: Place, allow_temporary: bool, c: Cache)
    ensures
        place_checked(place, allow_temporary, c) matches Some(c1) ==> goes_on(c, c1)
            && c1.type_bindings == c.type_bindings,
{
}

/// Inferring a reference only goes on.
pub proof fn law_reference_goes_on<A: Expression>()
    requires
        only_goes_on::<A>(),
    ensures
        only_goes_on::<Reference<A>>(),
{
    assert forall|t: Tree, c: Cache| outcome_goes_on(c, #[trigger] Reference::<A>::rule(t, c)) by {
        let outcome = Reference::<A>::rule(t, c);
        if let (Tree::Reference { mutability, expression, .. }, Some(end)) = (t, outcome) {
            lemma_inferred::<A>(*expression, c);
            let o = inferred::<A>(*expression, c)->0;
            lemma_reference_typed(mutability, o.tree.place_of(), o.result.typ, o.cache);
            law_goes_on_further(c, o.cache, end.cache);
        }
    }
}

pub proof fn lemma_reference_typed(mutability: Mutability, place: Place, t: Ty, c: Cache)
    ensures
        reference_typed(mutability, place, t, c) matches Some((_, c1)) ==> goes_on(c, c1),
{
    if let Some((_, end)) = reference_typed(mutability, place, t, c) {
        lemma_place(place, true, c);
        let c1 = if mutability == Mutability::Mutable {
            place_checked(place, true, c)->0
        } else {
            c
        };
        lemma_fresh_goes_on(c1, c1.current_level);
        law_goes_on_further(c, c1, end);
    }
}

pub proof fn lemma_references(n: nat, references: Seq<Referred>, lhs: Place, typ: Ty, c: Cache)
    ensures
        references_inferred(n, references, lhs, typ, c) matches Some((_, _, c1)) ==> goes_on(c, c1),
    decreases n,
{
    if n > 0 && references_inferred(n, references, lhs, typ, c) is Some {
        let k = (n - 1) as nat;
        lemma_references(k, references, lhs, typ, c);
        let (_, t, c1) = references_inferred(k, references, lhs, typ, c)->0;
        let (_, _, c2) = references_inferred(n, references, lhs, typ, c)->0;
        let place = place_inside(n - 1, references, lhs);
        lemma_reference_typed(references[n - 1].mutability, place, t, c1);
        law_goes_on_further(c, c1, c2);
    }
}

/// Inferring a function only goes on.
pub proof fn law_lambda_goes_on<A: Expression>()
    requires
        only_goes_on::<A>(),
    ensures
        only_goes_on::<Lambda<A>>(),
{
    assert forall|t: Tree, c: Cache| outcome_goes_on(c, #[trigger] Lambda::<A>::rule(t, c)) by {
        let outcome = Lambda::<A>::rule(t, c);
        if let (Tree::Lambda { parameters, environment, body, location, .. }, Some(end)) = (
            t,
            outcome,
        ) {
            let (types, c1) = fresh_types(parameters.len(), c);
            lemma_fresh_types(parameters.len(), c);
            lemma_bound_patterns(parameters, types, Seq::empty(), false, c1);
            let (_, c2) = bound_patterns(parameters, types, Seq::empty(), false, c1)->0;
            lemma_bound_captures(environment.len(), environment, c2);
            let (_, c3) = bound_captures(environment.len(), environment, c2)->0;
            lemma_body::<A>(*body, location, c3);
            let o = body_inferred::<A>(*body, location, c3)->0;
            lemma_fresh_goes_on(o.cache, o.cache.current_level);
            law_goes_on_further(c, c1, c2);
            law_goes_on_further(c, c2, c3);
            law_goes_on_further(c, c3, o.cache);
            law_goes_on_further(c, o.cache, end.cache);
        }
    }
}

pub proof fn lemma_body<A: Inferable>(body: Tree, location: Location, c: Cache)
    requires
        only_goes_on::<A>(),
    ensures
        outcome_goes_on(c, body_inferred::<A>(body, location, c)),
{
    lemma_inferred::<A>(body, c);
    if let (Some(declared), Some(o)) = (body.type_of(), A::rule(body, c)) {
        let reason = Reason::FunctionBodyDoesNotMatchReturnType;
        assert(outcome_goes_on(c, A::rule(body, c)));
        law_unify_goes_on(o.result.typ, declared, location, reason, o.cache);
        if let Some(c1) = after_unify(o.result.typ, declared, location, reason, o.cache) {
            law_goes_on_further(c, o.cache, c1);
        }
    }
}

pub proof fn lemma_arguments<A: Inferable>(n: nat, args: Seq<Tree>, f: Typing, c: Cache)
    requires
        only_goes_on::<A>(),
    ensures
        infer_arguments::<A>(n, args, f, c) matches Some((_, _, _, c1)) ==> goes_on(c, c1),
    decreases n,
{
    if n > 0 {
        lemma_arguments::<A>((n - 1) as nat, args, f, c);
        if let Some((_, _, joint, c1)) = infer_arguments::<A>((n - 1) as nat, args, f, c) {
            lemma_infer_and_combine::<A>(args[n - 1], joint, c1);
            if let Some((_, _, _, c2)) = infer_and_combine::<A>(args[n - 1], joint, c1) {
                law_goes_on_further(c, c1, c2);
            }
        }
    }
}

pub proof fn lemma_arguments_unified(
    n: nat,
    arguments: Seq<Ty>,
    parameters: Seq<Ty>,
    locations: Seq<Location>,
    c: Cache,
)
    ensures
        arguments_unified(n, arguments, parameters, locations, c) matches Some(c1) ==> goes_on(
            c,
            c1,
        ),
    decreases n,
{
    if n > 0 {
        let k = (n - 1) as nat;
        lemma_arguments_unified(k, arguments, parameters, locations, c);
        if let Some(c1) = arguments_unified(k, arguments, parameters, locations, c) {
            let reason = Reason::ArgumentTypeMismatch;
            let a = arguments[n - 1];
            let p = parameters[n - 1];
            law_unify_goes_on(a, p, locations[n - 1], reason, c1);
            if let Some(c2) = after_unify(a, p, locations[n - 1], reason, c1) {
                law_goes_on_further(c, c1, c2);
            }
        }
    }
}

/// Reporting a call that does not fit keeps what there was, and adds a report.
pub proof fn law_reporting_call_goes_on(
    location: Location,
    locations: Seq<Location>,
    f: Ty,
    call: Ty,
    original: Issue,
    c: Cache,
)
    ensures
        call_reported(location, locations, f, call, original, c) matches Some(c1) ==> goes_on(c, c1)
            && c.diagnostics.len() < c1.diagnostics.len(),
{
    if let Some(end) = call_reported(location, locations, f, call, original, c) {
        let expected = follow_in(f, c)->0;
        if let (
            Ty::Function { parameters, has_varargs, .. },
            Ty::Function { parameters: arguments, has_varargs: call_varargs, .. },
        ) = (expected, call) {
            let count = Report::FunctionParameterCountMismatch(
                expected,
                arguments.len() as usize,
                parameters.len() as usize,
            );
            let c1 = if parameters.len() != arguments.len() && !has_varargs && !call_varargs {
                lemma_report_goes_on(c, location, count);
                c.report(location, count)
            } else {
                c
            };
            let n = least(least(arguments.len(), parameters.len()), locations.len());
            lemma_arguments_unified(n, arguments, parameters, locations, c1);
            let c2 = arguments_unified(n, arguments, parameters, locations, c1)->0;
            law_goes_on_further(c, c1, c2);
            let whole = Report::FunctionTypeMismatch(call, expected);
            lemma_report_goes_on(c2, location, whole);
            law_goes_on_further(c, c2, c2.report(location, whole));
        } else {
            lemma_issue_goes_on(c, original);
        }
    }
}

pub proof fn lemma_applied(
    f: Typing,
    types: Seq<Ty>,
    argument_locations: Seq<Location>,
    location: Location,
    c: Cache,
)
    ensures
        applied_to(f, types, argument_locations, location, c) matches Some((_, c1)) ==> goes_on(
            c,
            c1,
        ),
{
    if let Some((_, end)) = applied_to(f, types, argument_locations, location, c) {
        let level = c.current_level;
        let c1 = c.fresh(level);
        let c2 = c1.fresh(level);
        let c3 = c2.fresh(level);
        lemma_fresh_goes_on(c, level);
        lemma_fresh_goes_on(c1, level);
        lemma_fresh_goes_on(c2, level);
        law_goes_on_further(c, c1, c2);
        law_goes_on_further(c, c2, c3);
        let effects = Ty::Variable(c1.next_id());
        let call = function_ty(
            types,
            Ty::Variable(c.next_id()),
            Ty::Variable(c2.next_id()),
            effects,
        );
        law_unification_goes_on(call, f.typ, c3);
        let step = fresh_unification(call, f.typ, c3)->0;
        let tried = step.state.cache;
        law_goes_on_further(c, c3, tried);
        let issue = mismatch(location, Reason::CalledValueIsNotAFunction, call, f.typ, tried);
        let c4 = if step.ok {
            let done = tried.perform(step.state.solution);
            law_goes_on_further(c, c3, done);
            done
        } else {
            law_reporting_call_goes_on(
                location,
                argument_locations,
                f.typ,
                call,
                issue,
                tried,
            );
            let done = call_reported(location, argument_locations, f.typ, call, issue, tried)->0;
            law_goes_on_further(c, tried, done);
            done
        };
        let row = Ty::Effects(f.effects.0, f.effects.1);
        law_unify_goes_on(effects, row, location, Reason::NeverShown, c4);
        law_goes_on_further(c, c4, end);
    }
}

/// Inferring a call only goes on.
pub proof fn law_call_goes_on<A: Expression>()
    requires
        only_goes_on::<A>(),
    ensures
        only_goes_on::<FunctionCall<A>>(),
{
    assert forall|t: Tree, c: Cache| outcome_goes_on(
        c,
        #[trigger] FunctionCall::<A>::rule(t, c),
    ) by {
        let outcome = FunctionCall::<A>::rule(t, c);
        if let (Tree::FunctionCall { function, args, location, .. }, Some(end)) = (t, outcome) {
            lemma_inferred::<A>(*function, c);
            let o = inferred::<A>(*function, c)->0;
            lemma_arguments::<A>(args.len(), args, o.result, o.cache);
            let (args1, types, joint, c1) = infer_arguments::<A>(
                args.len(),
                args,
                o.result,
                o.cache,
            )->0;
            lemma_applied(joint, types, locations(args1), location, c1);
            law_goes_on_further(c, o.cache, c1);
            law_goes_on_further(c, c1, end.cache);
        }
    }
}

pub proof fn lemma_reference_to(mutability: Mutability, t: Ty, c: Cache)
    ensures
        goes_on(c, reference_to(mutability, t, c).1),
{
    let level = c.current_level;
    let c1 = c.fresh(level);
    lemma_fresh_goes_on(c, level);
    lemma_fresh_goes_on(c1, level);
    law_goes_on_further(c, c1, c1.fresh(level));
    lemma_fresh_goes_on(c1.fresh(level), level);
    law_goes_on_further(c, c1.fresh(level), c1.fresh(level).fresh(level));
}

pub proof fn lemma_field_found(
    typ: Ty,
    row: Ty,
    field: Seq<char>,
    offset: Option<Mutability>,
    place: Place,
    location: Location,
    lhs_location: Location,
    c: Cache,
)
    ensures
        field_found(typ, row, field, offset, place, location, lhs_location, c) matches Some(c1)
            ==> goes_on(c, c1),
{
    let found = field_found(typ, row, field, offset, place, location, lhs_location, c);
    if let Some(end) = found {
        law_unification_goes_on(typ, row, c);
        let step = fresh_unification(typ, row, c)->0;
        let tried = step.state.cache;
        if step.ok {
            lemma_place(place, false, tried);
            let c1 = if offset == Some(Mutability::Mutable) {
                place_checked(place, false, tried)->0
            } else {
                tried
            };
            let s = State { solution: step.state.solution, cache: c1 };
            assert(is_proper(s)) by {
                assert forall|k: usize| #[trigger] s.solution.types.contains_key(k) implies lookup(
                    c1.type_bindings,
                    TypeVariableId(k),
                ) matches Some(Binding::Unbound(_, _)) by {
                    assert(step.state.solution.types.contains_key(k));
                }
            }
            lemma_perform_goes_on(c1, step.state.solution);
            law_goes_on_further(c, tried, c1);
            law_goes_on_further(c, c1, end);
        } else {
            let wanted = match offset {
                Some(mutability) => mutability,
                None => Mutability::Immutable,
            };
            lemma_reference_to(wanted, row, tried);
            let (reference, c1) = reference_to(wanted, row, tried);
            law_goes_on_further(c, tried, c1);
            law_unification_goes_on(typ, reference, c1);
            let step2 = fresh_unification(typ, reference, c1)->0;
            let tried2 = step2.state.cache;
            if step2.ok {
                law_goes_on_further(c, c1, end);
            } else {
                law_goes_on_further(c, c1, tried2);
                lemma_reference_to(Mutability::Immutable, row, tried2);
                let (immutable, c2) = reference_to(Mutability::Immutable, row, tried2);
                law_goes_on_further(c, tried2, c2);
                law_unification_goes_on(typ, immutable, c2);
                let step3 = fresh_unification(typ, immutable, c2)->0;
                law_goes_on_further(c, c2, step3.state.cache);
                law_goes_on_further(c, step3.state.cache, end);
            }
        }
    }
}

/// Inferring the access to a field only goes on.
pub proof fn law_access_goes_on<A: Expression>()
    requires
        only_goes_on::<A>(),
    ensures
        only_goes_on::<MemberAccess<A>>(),
{
    assert forall|t: Tree, c: Cache| outcome_goes_on(
        c,
        #[trigger] MemberAccess::<A>::rule(t, c),
    ) by {
        let outcome = MemberAccess::<A>::rule(t, c);
        if let (Tree::MemberAccess { lhs, field, offset, location, .. }, Some(end)) = (t, outcome) {
            lemma_inferred::<A>(*lhs, c);
            let o = inferred::<A>(*lhs, c)->0;
            let level = o.cache.current_level;
            let typ = Ty::Variable(o.cache.next_id());
            let c1 = o.cache.fresh(level);
            let c2 = c1.fresh(level);
            let row = row_with(field, typ, c1.next_id());
            lemma_fresh_goes_on(o.cache, level);
            lemma_fresh_goes_on(c1, level);
            law_goes_on_further(c, o.cache, c1);
            law_goes_on_further(c, c1, c2);
            let place = o.tree.place_of();
            let at = o.tree.location_of();
            lemma_field_found(o.result.typ, row, field, offset, place, location, at, c2);
            let c3 = field_found(o.result.typ, row, field, offset, place, location, at, c2)->0;
            law_goes_on_further(c, c2, c3);
            if let Some(mutability) = offset {
                lemma_reference_to(mutability, typ, c3);
                law_goes_on_further(c, c3, end.cache);
            }
        }
    }
}

pub proof fn lemma_mutable_ref(c: Cache)
    ensures
        goes_on(c, mutable_ref(c).1),
{
    let level = c.current_level;
    lemma_fresh_goes_on(c, level);
    lemma_fresh_goes_on(c.fresh(level), level);
    law_goes_on_further(c, c.fresh(level), c.fresh(level).fresh(level));
}

pub proof fn lemma_assignment_reported(
    lhs: Ty,
    lhs_location: Location,
    rhs: Ty,
    location: Location,
    c: Cache,
)
    ensures
        assignment_reported(lhs, lhs_location, rhs, location, c) matches Some(c1) ==> goes_on(
            c,
            c1,
        ),
{
    if let Some(end) = assignment_reported(lhs, lhs_location, rhs, location, c) {
        let c0 = c.fresh(c.current_level);
        lemma_fresh_goes_on(c, c.current_level);
        lemma_mutable_ref(c0);
        let (constructor, c1) = mutable_ref(c0);
        law_goes_on_further(c, c0, c1);
        let expected = at_one(constructor, Ty::Variable(c.next_id()));
        law_unification_goes_on(lhs, expected, c1);
        let step = fresh_unification(lhs, expected, c1)->0;
        let tried = step.state.cache;
        law_goes_on_further(c, c1, tried);
        if step.ok {
            if let Some(Ty::Application(_, args)) = follow_in(lhs, tried) {
                law_unify_goes_on(args[0], rhs, location, Reason::AssignToWrongType, tried);
                law_goes_on_further(c, tried, end);
            }
        } else {
            law_goes_on_further(c, tried, end);
        }
    }
}

/// Inferring an assignment only goes on.
pub proof fn law_assignment_goes_on<A: Expression>()
    requires
        only_goes_on::<A>(),
    ensures
        only_goes_on::<Assignment<A>>(),
{
    assert forall|t: Tree, c: Cache| outcome_goes_on(c, #[trigger] Assignment::<A>::rule(t, c)) by {
        let outcome = Assignment::<A>::rule(t, c);
        if let (Tree::Assignment { lhs, references, rhs, location, .. }, Some(end)) = (
            t,
            outcome,
        ) {
            let n = references.len();
            lemma_inferred::<A>(*lhs, c);
            let o1 = inferred::<A>(*lhs, c)->0;
            let own = o1.tree.place_of();
            lemma_references(n, references, own, o1.result.typ, o1.cache);
            let (_, typ, c1) = references_inferred(
                n,
                references,
                own,
                o1.result.typ,
                o1.cache,
            )->0;
            law_goes_on_further(c, o1.cache, c1);
            lemma_inferred::<A>(*rhs, c1);
            let o2 = inferred::<A>(*rhs, c1)->0;
            let lhs_result = o1.result.with_type(typ);
            lemma_results(lhs_result, o2.result, o2.cache);
            let (joint, c2) = combined_results(lhs_result, o2.result, o2.cache)->0;
            law_goes_on_further(c, c1, o2.cache);
            law_goes_on_further(c, o2.cache, c2);
            let place = place_inside(n as int, references, own);
            let at = if n > 0 {
                references.last().location
            } else {
                o1.tree.location_of()
            };
            lemma_assigned(joint.typ, place, at, o2.result.typ, location, c2);
            law_goes_on_further(c, c2, end.cache);
        }
    }
}

pub proof fn lemma_assigned(
    lhs: Ty,
    place: Place,
    lhs_location: Location,
    rhs: Ty,
    location: Location,
    c: Cache,
)
    ensures
        assigned(lhs, place, lhs_location, rhs, location, c) matches Some((_, c1)) ==> goes_on(
            c,
            c1,
        ),
{
    if let Some((_, end)) = assigned(lhs, place, lhs_location, rhs, location, c) {
        law_unification_goes_on(lhs, rhs, c);
        let step = fresh_unification(lhs, rhs, c)->0;
        let tried = step.state.cache;
        if step.ok {
            lemma_place(place, false, tried);
            let c1 = place_checked(place, false, tried)->0;
            let s = State { solution: step.state.solution, cache: c1 };
            assert(is_proper(s)) by {
                assert forall|k: usize| #[trigger] s.solution.types.contains_key(k) implies lookup(
                    c1.type_bindings,
                    TypeVariableId(k),
                ) matches Some(Binding::Unbound(_, _)) by {
                    assert(step.state.solution.types.contains_key(k));
                }
            }
            let done = c1.perform(step.state.solution);
            lemma_perform_goes_on(c1, step.state.solution);
            law_goes_on_further(c, tried, c1);
            law_goes_on_further(c, c1, done);
            lemma_fresh_goes_on(done, done.current_level);
            law_goes_on_further(c, done, end);
        } else {
            lemma_mutable_ref(tried);
            let (constructor, c1) = mutable_ref(tried);
            let expected = at_one(constructor, rhs);
            law_goes_on_further(c, tried, c1);
            law_unification_goes_on(lhs, expected, c1);
            let step2 = fresh_unification(lhs, expected, c1)->0;
            if step2.ok {
                law_goes_on_further(c, c1, end);
            } else {
                let tried2 = step2.state.cache;
                law_goes_on_further(c, c1, tried2);
                lemma_assignment_reported(lhs, lhs_location, rhs, location, tried2);
                law_goes_on_further(c, tried2, end);
            }
        }
    }
}

pub proof fn lemma_injecting(n: nat, vs: Seq<Visit>, c: Cache, effect: Ty)
    ensures
        for_each(n, vs, c, injecting(effect)) matches Some(c1) ==> goes_on(c, c1),
    decreases n,
{
    if n > 0 {
        lemma_injecting((n - 1) as nat, vs, c, effect);
        if let (Some(c1), Some(c2)) = (
            for_each((n - 1) as nat, vs, c, injecting(effect)),
            for_each(n, vs, c, injecting(effect)),
        ) {
            if let Visit::Variable(_, Some(id), _) = vs[n - 1] {
                let def = c2.definition_infos[id.0 as int];
                lemma_definition_goes_on(c1, id, def);
                assert(c2 == c1.with_definition(id, def));
            }
            law_goes_on_further(c, c1, c2);
        }
    }
}

pub proof fn lemma_declaration(d: Declared, generalize: bool, effect: Option<Ty>, c: Cache)
    ensures
        bound_declaration(d, generalize, effect, c) matches Some((_, c1)) ==> goes_on(c, c1),
{
    if let Some(typ) = d.typ {
        law_binding_goes_on(d.lhs, typ, Seq::empty(), generalize, c);
        if let (Some((lhs, c1)), Some(effect)) = (
            bound_pattern(d.lhs, typ, Seq::empty(), generalize, c),
            effect,
        ) {
            let vs = visits_of(lhs);
            lemma_injecting(vs.len(), vs, c1, effect);
            if let Some(c2) = for_each_variable(lhs, c1, injecting(effect)) {
                law_goes_on_further(c, c1, c2);
            }
        }
    }
}

pub proof fn lemma_declarations(
    n: nat,
    ds: Seq<Declared>,
    generalize: bool,
    effect: Option<Ty>,
    c: Cache,
)
    ensures
        bound_declarations(n, ds, generalize, effect, c) matches Some((_, c1)) ==> goes_on(c, c1),
    decreases n,
{
    if n > 0 {
        let k = (n - 1) as nat;
        lemma_declarations(k, ds, generalize, effect, c);
        if let Some((_, c1)) = bound_declarations(k, ds, generalize, effect, c) {
            lemma_declaration(ds[n - 1], generalize, effect, c1);
            if let Some((_, c2)) = bound_declaration(ds[n - 1], generalize, effect, c1) {
                law_goes_on_further(c, c1, c2);
            }
        }
    }
}

/// Declaring things at some level keeps what there was. Afterwards the level is what it was.
pub proof fn law_declaring_goes_on(
    ds: Seq<Declared>,
    level: Option<LetBindingLevel>,
    generalize: bool,
    effect: Option<Ty>,
    c: Cache,
)
    ensures
        declared_at(ds, level, generalize, effect, c) matches Some((_, c1)) ==> goes_on(c, c1),
{
    if let Some(own) = level {
        lemma_declarations(ds.len(), ds, generalize, effect, c.at_level(own));
    }
}

/// Inferring the definition of a trait, or what is declared to be defined elsewhere, only goes on.
pub proof fn law_declarations_go_on()
    ensures
        only_goes_on::<TraitDefinition>(),
        only_goes_on::<Extern>(),
{
    assert forall|t: Tree, c: Cache| outcome_goes_on(c, #[trigger] TraitDefinition::rule(t, c)) by {
        if let Tree::TraitDefinition { declarations, level, .. } = t {
            law_declaring_goes_on(declarations, level, true, None, c);
            if let Some((_, c1)) = declared_at(declarations, level, true, None, c) {
                lemma_fresh_goes_on(c1, c1.current_level);
                law_goes_on_further(c, c1, c1.fresh(c1.current_level));
            }
        }
    }
    assert forall|t: Tree, c: Cache| outcome_goes_on(c, #[trigger] Extern::rule(t, c)) by {
        if let Tree::Extern { declarations, level, .. } = t {
            law_declaring_goes_on(declarations, level, true, None, c);
            if let Some((_, c1)) = declared_at(declarations, level, true, None, c) {
                lemma_fresh_goes_on(c1, c1.current_level);
                law_goes_on_further(c, c1, c1.fresh(c1.current_level));
            }
        }
    }
}

/// Inferring the definition of an effect only goes on.
pub proof fn law_effect_definition_goes_on()
    ensures
        only_goes_on::<EffectDefinition>(),
{
    assert forall|t: Tree, c: Cache| outcome_goes_on(
        c,
        #[trigger] EffectDefinition::rule(t, c),
    ) by {
        if let Tree::EffectDefinition { declarations, effect_info, level, .. } = t {
            if let Some(effect) = own_effect(effect_info, c) {
                law_declaring_goes_on(declarations, level, false, Some(effect), c);
                if let Some((_, c1)) = declared_at(declarations, level, false, Some(effect), c) {
                    lemma_fresh_goes_on(c1, c1.current_level);
                    law_goes_on_further(c, c1, c1.fresh(c1.current_level));
                }
            }
        }
    }
}

pub proof fn lemma_first_branch<A: Inferable>(pattern: Tree, body: Tree, so_far: Typing, c: Cache)
    requires
        only_goes_on::<A>(),
    ensures
        first_branch::<A>(pattern, body, so_far, c) matches Some(b) ==> goes_on(c, b.cache),
{
    lemma_infer_and_combine::<A>(pattern, so_far, c);
    if let Some((pattern1, joint, own, c1)) = infer_and_combine::<A>(pattern, so_far, c) {
        let at = pattern1.location_of();
        let reason = Reason::MatchPatternTypeDiffers;
        law_unify_goes_on(own.typ, so_far.typ, at, reason, c1);
        if let Some(c2) = after_unify(own.typ, so_far.typ, at, reason, c1) {
            law_goes_on_further(c, c1, c2);
            lemma_infer_and_combine::<A>(body, joint, c2);
            if let Some((_, _, _, c3)) = infer_and_combine::<A>(body, joint, c2) {
                law_goes_on_further(c, c2, c3);
            }
        }
    }
}

pub proof fn lemma_next_branch<A: Inferable>(b: Branches, pattern: Tree, body: Tree)
    requires
        only_goes_on::<A>(),
    ensures
        next_branch::<A>(b, pattern, body) matches Some(b1) ==> goes_on(b.cache, b1.cache),
{
    if let Some(b1) = next_branch::<A>(b, pattern, body) {
        lemma_inferred::<A>(pattern, b.cache);
        let o1 = inferred::<A>(pattern, b.cache)->0;
        lemma_inferred::<A>(body, o1.cache);
        let o2 = inferred::<A>(body, o1.cache)->0;
        let at = o1.tree.location_of();
        let reason = Reason::MatchPatternTypeDiffers;
        law_unify_goes_on(o1.result.typ, b.joint.typ, at, reason, o2.cache);
        let c1 = after_unify(o1.result.typ, b.joint.typ, at, reason, o2.cache)->0;
        let at2 = o2.tree.location_of();
        let reason2 = Reason::MatchReturnTypeDiffers;
        law_unify_goes_on(o2.result.typ, b.typ, at2, reason2, c1);
        let c2 = after_unify(o2.result.typ, b.typ, at2, reason2, c1)->0;
        lemma_results(b.joint, o1.result, c2);
        let (joint, c3) = combined_results(b.joint, o1.result, c2)->0;
        lemma_results(joint, o2.result, c3);
        law_goes_on_further(b.cache, o1.cache, o2.cache);
        law_goes_on_further(b.cache, o2.cache, c1);
        law_goes_on_further(b.cache, c1, c2);
        law_goes_on_further(b.cache, c2, c3);
        law_goes_on_further(b.cache, c3, b1.cache);
    }
}

pub proof fn lemma_branches<A: Inferable>(
    n: nat,
    patterns: Seq<Tree>,
    bodies: Seq<Tree>,
    so_far: Typing,
    c: Cache,
)
    requires
        only_goes_on::<A>(),
    ensures
        infer_branches::<A>(n, patterns, bodies, so_far, c) matches Some(b) ==> goes_on(
            c,
            b.cache,
        ),
    decreases n,
{
    if n <= 1 {
        lemma_first_branch::<A>(patterns[0], bodies[0], so_far, c);
    } else {
        let k = (n - 1) as nat;
        lemma_branches::<A>(k, patterns, bodies, so_far, c);
        if let Some(b) = infer_branches::<A>(k, patterns, bodies, so_far, c) {
            lemma_next_branch::<A>(b, patterns[n - 1], bodies[n - 1]);
            if let Some(b1) = next_branch::<A>(b, patterns[n - 1], bodies[n - 1]) {
                law_goes_on_further(c, b.cache, b1.cache);
            }
        }
    }
}

/// Inferring a match, up to where its patterns are compiled, only goes on.
pub proof fn law_match_goes_on<A: Expression>(t: Tree, c: Cache)
    requires
        only_goes_on::<A>(),
    ensures
        outcome_goes_on(c, match_inferred::<A>(t, c)),
{
    if let (Tree::Match { expression, patterns, branches, .. }, Some(end)) = (
        t,
        match_inferred::<A>(t, c),
    ) {
        lemma_inferred::<A>(*expression, c);
        let o = inferred::<A>(*expression, c)->0;
        let c1 = o.cache.fresh(o.cache.current_level);
        lemma_fresh_goes_on(o.cache, o.cache.current_level);
        law_goes_on_further(c, o.cache, c1);
        if branches.len() > 0 {
            lemma_branches::<A>(branches.len(), patterns, branches, o.result, c1);
            law_goes_on_further(c, c1, end.cache);
        }
    }
}

pub proof fn lemma_next_handler<A: Inferable>(
    h: Handlers,
    pattern: Tree,
    body: Tree,
    resume: DefinitionInfoId,
    shared: Resumed,
)
    requires
        only_goes_on::<A>(),
    ensures
        next_handler::<A>(h, pattern, body, resume, shared) matches Some(h1) ==> goes_on(
            h.cache,
            h1.cache,
        ),
{
    if let Some(h1) = next_handler::<A>(h, pattern, body, resume, shared) {
        lemma_inferred::<A>(pattern, h.cache);
        let o1 = inferred::<A>(pattern, h.cache)->0;
        let resume_type = function_ty(
            seq![o1.result.typ],
            shared.typ,
            shared.environment,
            shared.effects,
        );
        let def = Def {
            typ: Some(Scheme::Mono(resume_type)),
            ..o1.cache.definition_infos[resume.0 as int]
        };
        let c1 = o1.cache.with_definition(resume, def);
        lemma_definition_goes_on(o1.cache, resume, def);
        lemma_inferred::<A>(body, c1);
        let o2 = inferred::<A>(body, c1)->0;
        let at = o2.tree.location_of();
        law_unify_goes_on(o2.result.typ, shared.typ, at, Reason::HandleBranchMismatch, o2.cache);
        law_goes_on_further(h.cache, o1.cache, c1);
        law_goes_on_further(h.cache, c1, o2.cache);
        law_goes_on_further(h.cache, o2.cache, h1.cache);
    }
}

pub proof fn lemma_handlers<A: Inferable>(
    n: nat,
    patterns: Seq<Tree>,
    bodies: Seq<Tree>,
    resumes: Seq<DefinitionInfoId>,
    shared: Resumed,
    c: Cache,
)
    requires
        only_goes_on::<A>(),
    ensures
        infer_handlers::<A>(n, patterns, bodies, resumes, shared, c) matches Some(h) ==> goes_on(
            c,
            h.cache,
        ),
    decreases n,
{
    if n > 0 {
        let k = (n - 1) as nat;
        lemma_handlers::<A>(k, patterns, bodies, resumes, shared, c);
        if let Some(h) = infer_handlers::<A>(k, patterns, bodies, resumes, shared, c) {
            let p = patterns[n - 1];
            let b = bodies[n - 1];
            lemma_next_handler::<A>(h, p, b, resumes[n - 1], shared);
            if let Some(h1) = next_handler::<A>(h, p, b, resumes[n - 1], shared) {
                law_goes_on_further(c, h.cache, h1.cache);
            }
        }
    }
}

/// Inferring a handler, up to where its free variables are found, only goes on.
pub proof fn law_handler_begins<A: Expression>(t: Tree, c: Cache)
    requires
        only_goes_on::<A>(),
    ensures
        handle_begun::<A>(t, c) matches Some((_, _, _, h)) ==> goes_on(c, h.cache),
{
    if let (
        Tree::Handle { expression, patterns, branches, resumes, .. },
        Some((_, _, shared, h)),
    ) = (t, handle_begun::<A>(t, c)) {
        lemma_inferred::<A>(*expression, c);
        let o = inferred::<A>(*expression, c)->0;
        let level = o.cache.current_level;
        let c1 = o.cache.fresh(level);
        let c2 = c1.fresh(level);
        lemma_fresh_goes_on(o.cache, level);
        lemma_fresh_goes_on(c1, level);
        law_goes_on_further(c, o.cache, c1);
        law_goes_on_further(c, c1, c2);
        let n = least(branches.len(), resumes.len());
        lemma_handlers::<A>(n, patterns, branches, resumes, shared, c2);
        law_goes_on_further(c, c2, h.cache);
    }
}

pub proof fn lemma_effects_added(n: nat, rows: Seq<EffectRow>, row: EffectRow, c: Cache)
    ensures
        effects_added(n, rows, row, c) matches Some((_, c1)) ==> goes_on(c, c1),
    decreases n,
{
    if n > 0 {
        lemma_effects_added((n - 1) as nat, rows, row, c);
        if let Some((row1, c1)) = effects_added((n - 1) as nat, rows, row, c) {
            law_combining_goes_on(row1, rows[n - 1], c1);
            if let Some((_, c2)) = combined(row1, rows[n - 1], c1) {
                law_goes_on_further(c, c1, c2);
            }
        }
    }
}

pub proof fn lemma_results_joined(n: nat, others: Seq<Typing>, result: Typing, c: Cache)
    ensures
        results_joined(n, others, result, c) matches Some((_, c1)) ==> goes_on(c, c1),
    decreases n,
{
    if n > 0 {
        lemma_results_joined((n - 1) as nat, others, result, c);
        if let Some((result1, c1)) = results_joined((n - 1) as nat, others, result, c) {
            lemma_results(result1, others[n - 1], c1);
            if let Some((_, c2)) = combined_results(result1, others[n - 1], c1) {
                law_goes_on_further(c, c1, c2);
            }
        }
    }
}

/// Finishing a handler only goes on.
pub proof fn law_handler_finishes(
    result: Typing,
    environment: Ty,
    resume_effects: Ty,
    h: Handlers,
    free: Seq<Ty>,
    location: Location,
    c: Cache,
)
    ensures
        handle_finished(result, environment, resume_effects, h, free, location, c) matches Some(
            (_, _, c1),
        ) ==> goes_on(c, c1),
{
    let finished = handle_finished(result, environment, resume_effects, h, free, location, c);
    if let Some((_, _, end)) = finished {
        let actual = tuple_ty(seq![continuation_ty()] + free);
        let reason = Reason::ResumeEnvironmentMismatch;
        law_unify_goes_on(environment, actual, location, reason, c);
        let c1 = after_unify(environment, actual, location, reason, c)->0;
        lemma_effects_added(h.effects.len(), h.effects, result.effects, c1);
        let (row, c2) = effects_added(h.effects.len(), h.effects, result.effects, c1)->0;
        let (rest, _) = effects_handled_by(
            h.effects.len(),
            h.traits,
            h.effects,
            Typing { effects: row, ..result },
            c2,
        )->0;
        let left = Ty::Effects(rest.effects.0, rest.effects.1);
        let reason2 = Reason::ResumeEffectsMismatch;
        law_unify_goes_on(resume_effects, left, location, reason2, c2);
        let c3 = after_unify(resume_effects, left, location, reason2, c2)->0;
        lemma_results_joined(h.results.len(), h.results, rest, c3);
        law_goes_on_further(c, c1, c2);
        law_goes_on_further(c, c2, c3);
        law_goes_on_further(c, c3, end);
    }
}

/// Using a variable whose type is known only goes on.
pub proof fn law_use_goes_on(t: Tree, scheme: Scheme, traits: Seq<Constraint>, c: Cache)
    ensures
        outcome_goes_on(c, variable_used(t, scheme, traits, c)),
{
    law_instantiating_goes_on(scheme, traits, c);
    if let (Tree::Variable { .. }, Some(i)) = (t, instance(scheme, traits, c)) {
        lemma_fresh_goes_on(i.cache, i.cache.current_level);
        law_goes_on_further(c, i.cache, i.cache.fresh(i.cache.current_level));
    }
}

/// Looking up the type of a variable only goes on.
pub proof fn law_lookup_goes_on(t: Tree, c: Cache)
    ensures
        looked_up(t, c) matches Some(Looked::Known(_, _, c1)) ==> goes_on(c, c1),
{
    if let (Tree::Variable { definition: Some(id), .. }, Some(Looked::Known(scheme, _, end))) = (
        t,
        looked_up(t, c),
    ) {
        let info = c.definition_infos[id.0 as int];
        if info.typ is None {
            let c1 = c.fresh(c.current_level);
            let def = Def { typ: Some(scheme), ..info };
            lemma_fresh_goes_on(c, c.current_level);
            lemma_definition_goes_on(c1, id, def);
            law_goes_on_further(c, c1, c1.with_definition(id, def));
        }
    }
}

/// Inferring a whole program gains from the cache it starts with: nothing that was known before is
/// lost.
pub proof fn law_program_gains<A: Inferable>(t: Tree, c: Cache)
    requires
        only_goes_on::<A>(),
    ensures
        program_inferred::<A>(t, c) matches Some(o) ==> gains(c, o.cache),
{
    let start = c.at_level(LetBindingLevel(INITIAL_LEVEL));
    lemma_inferred::<A>(t, start);
    if let (Some(o), Some(end)) = (inferred::<A>(t, start), program_inferred::<A>(t, c)) {
        assert(gains(c, start));
        law_gains_further(c, start, o.cache);
        assert(gains(o.cache, end.cache));
        law_gains_further(c, o.cache, end.cache);
    }
}

} // verus!
