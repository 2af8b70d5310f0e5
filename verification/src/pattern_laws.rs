//! What binding patterns is for: the pattern is of the type that it is bound to, and its variables
//! have the types that they were bound to.

use crate::accord::{accord, law_accord_stays};
use crate::agreement::committed;
use crate::cache::{Cache, Def, Reason, Required, Scheme};
use crate::inference_laws::{law_binding_goes_on, lemma_bound_patterns, lemma_fresh_types};
use crate::patterns::{bound_pattern, bound_patterns, fresh_types, Pat, PatVar};
use crate::progress::{gains, goes_on, law_goes_on_further, law_unify_goes_on, lemma_fresh_goes_on};
use crate::resolve::MAX_DEPTH;
use crate::results::{pair_ty, unit_ty};
use crate::rule_laws::{lemma_unified, reports_nothing};
use crate::solve::after_unify;
use crate::types::Ty;
use crate::typevars::generalization;
use crate::unify_laws::law_unify_keeps;
use vstd::prelude::*;

verus! {

/// Whether the pattern is of the type: the unit literal of the unit type, a variable of just that
/// type, an annotated pattern of the declared one as well, and a pair of that of its elements.
/// `bound` is the pattern with the types that were noted on it. No other pattern is of any type.
pub open spec fn is_of(p: Pat, bound: Pat, t: Ty, c: Cache) -> bool
    decreases p,
{
    match (p, bound) {
        (Pat::Literal(is_unit, _, _), Pat::Literal(_, _, typ)) => is_unit && accord(
            unit_ty(),
            t,
            c,
        ) && typ == Some(unit_ty()),
        (Pat::Variable(v), Pat::Variable(w)) => w == (PatVar { typ: Some(t), ..v }),
        (Pat::Annotation(lhs, typ, _), Pat::Annotation(lhs1, typ1, _)) => {
            &&& typ1 == typ
            &&& typ matches Some(declared) && accord(t, declared, c)
            &&& is_of(*lhs, *lhs1, t, c)
        },
        (
            Pat::Call { is_pair, args, .. },
            Pat::Call { args: args1, function_type: Some(constructor), typ: Some(pair), .. },
        ) => {
            &&& is_pair
            &&& accord(pair, t, c)
            &&& constructor is Function
            &&& pair == pair_ty(constructor->parameters)
            &&& *constructor->return_type == pair
            &&& are_of(args, args1, constructor->parameters, c)
        },
        _ => false,
    }
}

/// Whether each of the patterns is of the type in its place.
pub open spec fn are_of(ps: Seq<Pat>, bound: Seq<Pat>, ts: Seq<Ty>, c: Cache) -> bool
    decreases ps,
{
    &&& bound.len() == ps.len()
    &&& ts.len() == ps.len()
    &&& forall|i: int|
        0 <= i < ps.len() ==> is_of(ps[i], #[trigger] bound[i], ts[i], c)
}

pub proof fn lemma_fresh_types_number(n: nat, c: Cache)
    ensures
        fresh_types(n, c).0.len() == n,
    decreases n,
{
    if n > 0 {
        lemma_fresh_types_number((n - 1) as nat, c);
    }
}

/// A pattern that was bound to a type with nothing to report is of the type.
pub proof fn law_bound_pattern_is_of_type(
    p: Pat,
    t: Ty,
    required: Seq<Required>,
    generalize: bool,
    before: Cache,
    c: Cache,
    end: Cache,
)
    requires
        bound_pattern(p, t, required, generalize, c) matches Some((_, c1)) && goes_on(c1, end),
        goes_on(before, c),
        reports_nothing(before, end),
        end.type_bindings.len() <= usize::MAX,
    ensures
        is_of(p, (bound_pattern(p, t, required, generalize, c)->0).0, t, end),
    decreases p,
{
    let (bound, c1) = bound_pattern(p, t, required, generalize, c)->0;
    law_binding_goes_on(p, t, required, generalize, c);
    match p {
        Pat::Literal(true, location, _) => {
            let reason = Reason::ExpectedUnitTypeFromPattern;
            lemma_unified(unit_ty(), t, location, reason, before, c, end);
        },
        Pat::Variable(v) => {
            let w = bound->Variable_0;
            assert(w.typ == Some(t));
        },
        Pat::Annotation(lhs, typ, location) => {
            let declared = typ->0;
            let reason = Reason::PatternTypeDoesNotMatchAnnotatedType;
            let c2 = after_unify(t, declared, location, reason, c)->0;
            law_unify_goes_on(t, declared, location, reason, c);
            law_binding_goes_on(*lhs, t, required, generalize, c2);
            law_goes_on_further(c2, c1, end);
            law_goes_on_further(before, c, c2);
            lemma_unified(t, declared, location, reason, before, c, end);
            law_bound_pattern_is_of_type(*lhs, t, required, generalize, before, c2, end);
        },
        Pat::Call { is_pair: true, args, location, .. } => {
            let (elements, c2) = fresh_types(args.len(), c);
            lemma_fresh_types(args.len(), c);
            lemma_fresh_types_number(args.len(), c);
            let reason = Reason::ExpectedPairTypeFromPattern;
            law_unify_goes_on(pair_ty(elements), t, location, reason, c2);
            let c3 = after_unify(pair_ty(elements), t, location, reason, c2)->0;
            let c4 = c3.fresh(c3.current_level);
            lemma_fresh_goes_on(c3, c3.current_level);
            lemma_bound_patterns(args, elements, required, generalize, c4);
            law_goes_on_further(before, c, c2);
            law_goes_on_further(before, c2, c3);
            law_goes_on_further(before, c3, c4);
            law_goes_on_further(c3, c4, c1);
            law_goes_on_further(c3, c1, end);
            lemma_unified(pair_ty(elements), t, location, reason, before, c2, end);
            law_bound_patterns_are_of_types(
                args,
                elements,
                required,
                generalize,
                before,
                c4,
                end,
            );
        },
        _ => {},
    }
}

/// Patterns that were bound to types with nothing to report are of the types.
pub proof fn law_bound_patterns_are_of_types(
    ps: Seq<Pat>,
    ts: Seq<Ty>,
    required: Seq<Required>,
    generalize: bool,
    before: Cache,
    c: Cache,
    end: Cache,
)
    requires
        bound_patterns(ps, ts, required, generalize, c) matches Some((_, c1)) && goes_on(c1, end),
        ps.len() <= ts.len(),
        goes_on(before, c),
        reports_nothing(before, end),
        end.type_bindings.len() <= usize::MAX,
    ensures
        are_of(
            ps,
            (bound_patterns(ps, ts, required, generalize, c)->0).0,
            ts.take(ps.len() as int),
            end,
        ),
        ps.len() == ts.len() ==> are_of(
            ps,
            (bound_patterns(ps, ts, required, generalize, c)->0).0,
            ts,
            end,
        ),
    decreases ps,
{
    assert(ts.take(ts.len() as int) =~= ts);
    if ps.len() > 0 {
        let front = ps.subrange(0, ps.len() - 1);
        let last = ps[ps.len() - 1];
        let t = ts[ps.len() - 1];
        let (front1, c1) = bound_patterns(front, ts, required, generalize, c)->0;
        let (last1, c2) = bound_pattern(last, t, required, generalize, c1)->0;
        let bound = (bound_patterns(ps, ts, required, generalize, c)->0).0;
        assert(bound == front1.push(last1));
        lemma_bound_patterns(front, ts, required, generalize, c);
        law_binding_goes_on(last, t, required, generalize, c1);
        law_goes_on_further(c1, c2, end);
        law_goes_on_further(before, c, c1);
        law_bound_patterns_are_of_types(front, ts, required, generalize, before, c, end);
        law_bound_pattern_is_of_type(last, t, required, generalize, before, c1, end);
        assert forall|i: int| 0 <= i < ps.len() implies is_of(
            ps[i],
            #[trigger] bound[i],
            ts.take(ps.len() as int)[i],
            end,
        ) by {
            if i < front.len() {
                assert(is_of(front[i], front1[i], ts.take(front.len() as int)[i], end));
            }
        }
    }
}

/// Whether the scheme is the type generalized over its variables of the level of the cache.
pub open spec fn is_generalization(scheme: Scheme, t: Ty, c: Cache) -> bool {
    exists|c1: Cache|
        c1.type_bindings == c.type_bindings && c1.current_level == c.current_level
            && #[trigger] generalization(t, c1) == Some(scheme)
}

/// A variable that was bound has the type that it was bound to, generalized if that was asked for
/// or if it was general before. It requires what it did before, and what is required of it now. No
/// other definition changes. With nothing to report, the type fits the one that was declared.
pub proof fn law_bound_variable_has_its_type(
    v: PatVar,
    t: Ty,
    required: Seq<Required>,
    generalize: bool,
    c: Cache,
)
    requires
        bound_pattern(Pat::Variable(v), t, required, generalize, c) matches Some((_, c1))
            && c1.type_bindings.len() <= usize::MAX,
    ensures
        ({
            let (bound, c1) = bound_pattern(Pat::Variable(v), t, required, generalize, c)->0;
            let id = v.definition->0;
            let before = c.definition_infos[id.0 as int];
            let after = c1.definition_infos[id.0 as int];
            &&& v.definition is Some
            &&& id.0 < c.definition_infos.len()
            &&& c1.definition_infos.len() == c.definition_infos.len()
            &&& forall|i: int|
                0 <= i < c.definition_infos.len() && i != id.0 ==> #[trigger] c1.definition_infos[i]
                    == c.definition_infos[i]
            &&& after == (Def {
                typ: after.typ,
                required_traits: before.required_traits + required,
                ..before
            })
            &&& after.typ matches Some(scheme) && scheme.body() == t && if generalize || (
            before.typ matches Some(declared) && declared is Poly) {
                is_generalization(scheme, t, c1)
            } else {
                scheme is Mono
            }
            &&& reports_nothing(c, c1) ==> (before.typ matches Some(declared) ==> accord(
                declared.body(),
                t,
                c1,
            ))
        }),
{
    let (bound, c1) = bound_pattern(Pat::Variable(v), t, required, generalize, c)->0;
    let id = v.definition->0;
    let before = c.definition_infos[id.0 as int];
    let unified = match before.typ {
        Some(declared) => {
            let reason = Reason::VariableDoesNotMatchDeclaredType;
            law_unify_keeps(MAX_DEPTH as nat, declared.body(), t, committed(c));
            after_unify(declared.body(), t, v.location, reason, c)->0
        },
        None => c,
    };
    assert(unified.definition_infos == c.definition_infos);
    assert(c1.type_bindings == unified.type_bindings);
    let scheme = c1.definition_infos[id.0 as int].typ->0;
    if generalize || (before.typ matches Some(declared) && declared is Poly) {
        assert(generalization(t, unified) == Some(scheme));
    }
    if let Some(declared) = before.typ {
        let reason = Reason::VariableDoesNotMatchDeclaredType;
        law_unify_goes_on(declared.body(), t, v.location, reason, c);
        let c2 = after_unify(declared.body(), t, v.location, reason, c)->0;
        assert(gains(c2, c1));
        if reports_nothing(c, c1) {
            lemma_unified(declared.body(), t, v.location, reason, c, c, c2);
            law_accord_stays(declared.body(), t, c2, c1);
        }
    }
}

} // verus!
