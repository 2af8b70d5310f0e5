//! What functions come to: the type of a function says what its parameters, its result, what it
//! captures and its effects are.

use crate::accord::{accord, lemma_stay_grow};
use crate::agreement::committed;
use crate::cache::{
    Cache, Constraint, DefinitionInfoId, DefinitionKind, ImplScopeId, Reason, Scheme, VariableId,
};
use crate::definitions::{
    bound_capture, bound_captures, capture_types, finished, nested_definition, Captured,
};
use crate::effect_flow::{
    lemma_flattened, lemma_later, lemma_unfold, only_open, row_ends, row_has, type_row,
};
use crate::effect_sets::{flat, lemma_flat_end, EffectRow};
use crate::functions::{body_inferred, closed_function, function_ty, Lambda};
use crate::inference_laws::{
    lemma_body, lemma_bound_captures, lemma_bound_patterns, lemma_fresh_types, lemma_inferred,
    only_goes_on,
};
use crate::instantiate::{fresh_names, instance};
use crate::occurs::occurs_in;
use crate::occurs_laws::{law_occurs_lists, law_occurs_reaches, reaches};
use crate::pattern_laws::{are_of, law_bound_patterns_are_of_types, lemma_fresh_types_number};
use crate::patterns::{bound_patterns, fresh_types};
use crate::progress::{goes_on, law_goes_on_further, law_unify_goes_on, lemma_fresh_goes_on};
use crate::resolve::MAX_DEPTH;
use crate::results::{tuple_ty, unit_ty};
use crate::rule_laws::{lemma_unified, reports_nothing};
use crate::tree::{Expression, Inferable, Outcome, Tree};
use crate::types::Ty;
use crate::typevars::vars_in_constraints;
use crate::unify::RECURSION_LIMIT;
use crate::use_laws::{lemma_fresh_names, lemma_missing_names};
use crate::values::{looked_up, variable_used, Looked};
use vstd::prelude::*;

verus! {

/// Whether the body was inferred after the one cache and before the other. The type of its result
/// is noted on it, unless one was declared.
pub open spec fn is_body<A: Inferable>(
    body: Tree,
    c1: Cache,
    o: Outcome,
    noted: Tree,
    before: Cache,
    after: Cache,
) -> bool {
    &&& A::rule(body, c1) == Some(o)
    &&& noted == if body.type_of() is None {
        o.tree.with_type(o.result.typ)
    } else {
        o.tree
    }
    &&& goes_on(before, c1)
    &&& goes_on(o.cache, after)
}

/// Whether the type is that of an environment with those members: unit if there are none, and else
/// a tuple of their types.
pub open spec fn holds_captured(environment: Ty, members: Seq<Captured>, c: Cache) -> bool {
    if members.len() == 0 {
        environment == unit_ty()
    } else {
        exists|types: Seq<Ty>|
            types.len() == members.len() && environment == #[trigger] tuple_ty(types)
                && (forall|i: int|
                0 <= i < members.len() ==> c.definition_infos[(#[trigger] members[i]).to.0
                    as int].typ == Some(Scheme::Mono(types[i])))
    }
}

/// Whether the function type has the result, the constraints and the effects of the body. To make
/// a function has none of the effects.
pub open spec fn is_function_of(f: Outcome, body: Outcome) -> bool {
    &&& *f.result.typ->return_type == body.result.typ
    &&& f.result.traits == body.result.traits
    &&& forall|wanted: spec_fn(Ty) -> bool|
        row_has(
            type_row(*f.result.typ->Function_effects),
            wanted,
            committed(f.cache),
        ) <==> #[trigger] row_has(body.result.effects, wanted, committed(f.cache))
    &&& forall|wanted: spec_fn(Ty) -> bool|
        !#[trigger] row_has(f.result.effects, wanted, committed(f.cache))
}

/// The type of a function has one parameter for each pattern, the result of its body, which is of
/// the declared type if there is one, what it captures, and the effects of its body.
pub proof fn law_function_has_its_type<A: Expression>(t: Tree, c: Cache)
    requires
        only_goes_on::<A>(),
        t is Lambda,
        Lambda::<A>::rule(t, c) matches Some(o) && o.cache.type_bindings.len() <= usize::MAX,
    ensures
        ({
            let o = Lambda::<A>::rule(t, c)->0;
            let body = *t->Lambda_body;
            &&& o.tree is Lambda
            &&& o.result.typ is Function
            &&& !o.result.typ->has_varargs
            &&& o.result.typ->parameters.len() == t->Lambda_parameters.len()
            &&& reports_nothing(c, o.cache) ==> are_of(
                t->Lambda_parameters,
                o.tree->Lambda_parameters,
                o.result.typ->parameters,
                o.cache,
            )
            &&& o.tree->Lambda_environment.len() == t->Lambda_environment.len()
            &&& holds_captured(
                *o.result.typ->environment,
                o.tree->Lambda_environment,
                o.cache,
            )
            &&& exists|c1: Cache, b: Outcome|
                #![trigger is_body::<A>(body, c1, b, *o.tree->Lambda_body, c, o.cache)]
                is_body::<A>(body, c1, b, *o.tree->Lambda_body, c, o.cache) && is_function_of(o, b)
                    && (reports_nothing(c, o.cache) ==> (body.type_of() matches Some(declared)
                    ==> accord(b.result.typ, declared, o.cache)))
        }),
{
    let end = Lambda::<A>::rule(t, c)->0;
    let (parameters, environment, body, location) = match t {
        Tree::Lambda { parameters, environment, body, location, .. } => (
            parameters,
            environment,
            *body,
            location,
        ),
        _ => arbitrary(),
    };
    let (types, c1) = fresh_types(parameters.len(), c);
    lemma_fresh_types(parameters.len(), c);
    lemma_fresh_types_number(parameters.len(), c);
    lemma_bound_patterns(parameters, types, Seq::empty(), false, c1);
    let (parameters1, c2) = bound_patterns(parameters, types, Seq::empty(), false, c1)->0;
    lemma_bound_captures(environment.len(), environment, c2);
    lemma_captures_number(environment.len(), environment, c2);
    let (environment1, c3) = bound_captures(environment.len(), environment, c2)->0;
    lemma_body::<A>(body, location, c3);
    let o = body_inferred::<A>(body, location, c3)->0;
    lemma_fresh_goes_on(o.cache, o.cache.current_level);
    law_goes_on_further(c, c1, c2);
    law_goes_on_further(c, c2, c3);
    law_goes_on_further(c2, c3, o.cache);
    law_goes_on_further(c2, o.cache, end.cache);
    assert(goes_on(c, c));
    if reports_nothing(c, end.cache) {
        law_bound_patterns_are_of_types(
            parameters,
            types,
            Seq::empty(),
            false,
            c,
            c1,
            end.cache,
        );
    }
    let captured = capture_types(environment1, o.cache)->0;
    if environment.len() > 0 {
        assert(*end.result.typ->environment == tuple_ty(captured));
        assert forall|i: int| 0 <= i < environment1.len() implies end.cache.definition_infos[(
        #[trigger] environment1[i]).to.0 as int].typ == Some(Scheme::Mono(captured[i])) by {
            let _ = o.cache.definition_infos[environment1[i].to.0 as int];
        }
    }
    let b = A::rule(body, c3)->0;
    lemma_inferred::<A>(body, c3);
    assert(goes_on(b.cache, o.cache)) by {
        if let Some(declared) = body.type_of() {
            let reason = Reason::FunctionBodyDoesNotMatchReturnType;
            law_unify_goes_on(b.result.typ, declared, location, reason, b.cache);
        }
    }
    law_goes_on_further(b.cache, o.cache, end.cache);
    assert(is_body::<A>(body, c3, b, *end.tree->Lambda_body, c, end.cache));
    if reports_nothing(c, end.cache) {
        if let Some(declared) = body.type_of() {
            let reason = Reason::FunctionBodyDoesNotMatchReturnType;
            assert(goes_on(c3, b.cache));
            law_goes_on_further(c, c3, b.cache);
            lemma_unified(b.result.typ, declared, location, reason, c, b.cache, end.cache);
        }
    }
    lemma_stay_grow(o.cache, end.cache);
    let s = committed(o.cache);
    let r = committed(end.cache);
    let row = b.result.effects;
    let (effects, extension) = flat(row, o.cache)->0;
    let own = type_row(*end.result.typ->Function_effects);
    assert(own.0 == effects);
    assert forall|wanted: spec_fn(Ty) -> bool|
        row_has(own, wanted, r) <==> #[trigger] row_has(row, wanted, r) by {
        lemma_flattened(MAX_DEPTH as nat, row.0, row.1, wanted, s);
        lemma_later(row, wanted, s, r);
        lemma_unfold(own, wanted, r);
        assert(row == (row.0, row.1));
        if let Some(v) = extension {
            assert(row_ends(row, v, s));
            lemma_flat_end(row, o.cache);
            lemma_unfold(only_open(v), wanted, r);
        }
    }
    assert forall|wanted: spec_fn(Ty) -> bool|
        !#[trigger] row_has(end.result.effects, wanted, r) by {
        lemma_unfold(end.result.effects, wanted, r);
    }
    assert(is_function_of(end, b));
}

proof fn lemma_captures_number(n: nat, vs: Seq<Captured>, c: Cache)
    requires
        bound_captures(n, vs, c) is Some,
    ensures
        (bound_captures(n, vs, c)->0).0.len() == n,
    decreases n,
{
    if n > 0 {
        lemma_captures_number((n - 1) as nat, vs, c);
    }
}

/// A variable that is captured gets the type that a use of it would have, at the same bindings. No
/// other definition changes.
pub proof fn law_capture_is_a_use(v: Captured, t: Tree, c: Cache)
    requires
        t is Variable,
        bound_capture(v, c) is Some,
        c.definition_infos[v.from.0 as int].typ is Some,
    ensures
        ({
            let (v1, c1) = bound_capture(v, c)->0;
            let scheme = c.definition_infos[v.from.0 as int].typ->0;
            &&& v1.from == v.from && v1.to == v.to
            &&& c1.definition_infos.len() == c.definition_infos.len()
            &&& forall|i: int|
                0 <= i < c.definition_infos.len() && i != v.to.0 ==> #[trigger]
                    c1.definition_infos[i] == c.definition_infos[i]
            &&& c.definition_infos[v.to.0 as int].typ is None
            &&& variable_used(t, scheme, Seq::empty(), c) matches Some(o) && {
                &&& o.tree->mapping == v1.bindings
                &&& c1.definition_infos[v.to.0 as int].typ == Some(Scheme::Mono(o.result.typ))
            }
        }),
{
    let scheme = c.definition_infos[v.from.0 as int].typ->0;
    let i = instance(scheme, Seq::empty(), c)->0;
    if let Scheme::Poly(vars, _) = scheme {
        let (m1, c1) = fresh_names(vars.len(), vars, Map::empty(), c);
        lemma_fresh_names(vars.len(), vars, c);
        let found = vars_in_constraints(0, Seq::empty(), c1)->0;
        lemma_missing_names(found.len(), found, m1, c1);
    }
    assert(i.cache.definition_infos == c.definition_infos);
}

/// A variable whose definition was inferred just now is looked up like any other, and has the
/// constraints that are left over from the definition as well.
pub proof fn law_nested_is_looked_up(
    id: DefinitionInfoId,
    kind: DefinitionKind,
    traits: Seq<Constraint>,
    mutually_recursive: bool,
    scope: ImplScopeId,
    callsite: VariableId,
    t: Tree,
    c: Cache,
    ended: Cache,
)
    requires
        kind == DefinitionKind::Definition ==> ended == c,
        kind != DefinitionKind::Definition ==> finished(id, mutually_recursive, c) == Some(ended),
        nested_definition(
            id,
            kind,
            traits,
            mutually_recursive,
            scope,
            callsite,
            c,
        ) is Some,
        t is Variable,
        t->definition == Some(id),
        t->impl_scope == Some(scope),
        t->Variable_id == Some(callsite),
    ensures
        nested_definition(
            id,
            kind,
            traits,
            mutually_recursive,
            scope,
            callsite,
            c,
        ) matches Some((scheme, all, end)) && looked_up(t, ended) matches Some(
            Looked::Known(known, own, c1),
        ) && known == scheme && all == traits + own && end == c1,
{
}

/// A function with the given effects is closed, so that no effects can be added later, unless the
/// variable that the effects are open in stands somewhere else in its type.
pub proof fn law_function_is_closed(
    parameters: Seq<Ty>,
    return_type: Ty,
    environment: Ty,
    effects: EffectRow,
    c: Cache,
)
    requires
        closed_function(parameters, return_type, environment, effects, c) is Some,
    ensures
        ({
            let t = closed_function(parameters, return_type, environment, effects, c)->0;
            let closed = Ty::Function {
                parameters,
                return_type: Box::new(return_type),
                environment: Box::new(environment),
                effects: Box::new(Ty::Effects(effects.0, None)),
                has_varargs: false,
            };
            match effects.1 {
                None => t == closed,
                Some(v) => if exists|n: nat|
                    reaches(n, closed, v, Map::empty(), c.type_bindings) {
                    t == (Ty::Function {
                        parameters,
                        return_type: Box::new(return_type),
                        environment: Box::new(environment),
                        effects: Box::new(Ty::Effects(effects.0, Some(v))),
                        has_varargs: false,
                    })
                } else {
                    t == closed
                },
            }
        }),
{
    let closed = function_ty(parameters, return_type, environment, Ty::Effects(effects.0, None));
    let fuel = (RECURSION_LIMIT + 1) as nat;
    let vars = c.type_bindings;
    if let Some(v) = effects.1 {
        let level = c.current_level;
        if let Some((found, _)) = occurs_in(fuel, v, level, closed, Map::empty(), vars) {
            if found {
                law_occurs_reaches(fuel, v, level, closed, Map::empty(), vars);
                assert(reaches(fuel, closed, v, Map::empty(), vars));
            } else {
                assert forall|n: nat| !#[trigger] reaches(n, closed, v, Map::empty(), vars) by {
                    if reaches(n, closed, v, Map::empty(), vars) {
                        law_occurs_lists(fuel, v, level, closed, Map::empty(), vars, n, v);
                    }
                }
            }
        }
    }
}

/// Whether the captured variable was bound after one cache and before the other.
pub open spec fn captured_between(v: Captured, v1: Captured, before: Cache, after: Cache) -> bool {
    exists|c1: Cache|
        goes_on(before, c1) && (#[trigger] bound_capture(v, c1) matches Some((own, c2)) && own == v1
            && goes_on(c2, after))
}

/// All that a closure captures is bound, one after the other.
pub proof fn law_all_captures_are_bound(n: nat, vs: Seq<Captured>, c: Cache)
    requires
        n <= vs.len(),
        bound_captures(n, vs, c) is Some,
    ensures
        ({
            let (done, c1) = bound_captures(n, vs, c)->0;
            &&& done.len() == n
            &&& forall|i: int| 0 <= i < n ==> captured_between(vs[i], #[trigger] done[i], c, c1)
        }),
    decreases n,
{
    if n > 0 {
        let k = (n - 1) as nat;
        law_all_captures_are_bound(k, vs, c);
        let (front, c1) = bound_captures(k, vs, c)->0;
        let (done, c2) = bound_captures(n, vs, c)->0;
        lemma_bound_captures(k, vs, c);
        lemma_bound_captures(1, seq![vs[n - 1]], c1);
        reveal_with_fuel(bound_captures, 2);
        assert(bound_captures(1, seq![vs[n - 1]], c1) matches Some((_, c3)) && c3 == c2);
        assert(goes_on(c2, c2));
        assert forall|i: int| 0 <= i < n implies captured_between(
            vs[i],
            #[trigger] done[i],
            c,
            c2,
        ) by {
            if i < k {
                assert(captured_between(vs[i], front[i], c, c1));
                let c3 = choose|c3: Cache|
                    goes_on(c, c3) && (#[trigger] bound_capture(vs[i], c3) matches Some((own, c4))
                        && own == front[i] && goes_on(c4, c1));
                let (_, c4) = bound_capture(vs[i], c3)->0;
                law_goes_on_further(c4, c1, c2);
            }
        }
    }
}

} // verus!
