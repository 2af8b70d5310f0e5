//! What definitions come to: the pattern is of the type of the value, which was inferred at the
//! level of the definition while its variables were marked, and nothing of the value is lost.

use crate::cache::{Cache, Constraint, Def, DefinitionInfoId, Scheme};
use crate::definition_laws::{
    law_initializing_goes_on, law_marking_pushes, lemma_marking_gains, lemma_unmarking_gains,
};
use crate::definitions::{function_initialized, last_definition, marking, pattern_types, unmarking};
use crate::effect_sets::EffectRow;
use crate::inference_laws::{law_binding_goes_on, lemma_inferred, only_goes_on};
use crate::pattern_laws::{is_of, law_bound_pattern_is_of_type};
use crate::patterns::{
    for_each, for_each_variable, pattern_type, visits_of, visits_of_all, Pat, PatVar, Visit,
};
use crate::progress::{gains, goes_on, law_gains_further};
use crate::results::{pair_ty, unit_ty};
use crate::rule_laws::{lemma_noted, noted, reports_nothing};
use crate::tree::{inferred, Expression, Outcome, Tree};
use crate::types::{LetBindingLevel, Ty};
use crate::values::{definition_begun, definition_finished, Begun};
use vstd::prelude::*;

verus! {

/// Whether the definition is one of those of the first `n` variables met.
pub open spec fn is_met(id: int, n: nat, vs: Seq<Visit>) -> bool {
    exists|i: int|
        0 <= i < n && (#[trigger] vs[i] matches Visit::Variable(_, Some(own), _) && own.0 == id)
}

/// Whether just the given definitions were marked: each has a type, the one it had if it had one.
pub open spec fn are_marked(n: nat, vs: Seq<Visit>, before: Cache, after: Cache) -> bool {
    &&& after.definition_infos.len() == before.definition_infos.len()
    &&& forall|id: int|
        0 <= id < before.definition_infos.len() ==> {
            let old = before.definition_infos[id];
            let new = #[trigger] after.definition_infos[id];
            if is_met(id, n, vs) {
                &&& new.undergoing_type_inference
                &&& new.typ is Some
                &&& old.typ is Some ==> new.typ == old.typ
                &&& old.typ is None ==> new.typ->0 is Mono && new.typ->0.body() is Variable
                &&& new.required_traits == old.required_traits
            } else {
                new == old
            }
        }
}

/// Marking the variables of a pattern marks their definitions, and no others.
pub proof fn law_marking_marks(n: nat, vs: Seq<Visit>, c: Cache)
    requires
        n <= vs.len(),
        for_each(n, vs, c, marking()) is Some,
    ensures
        are_marked(n, vs, c, for_each(n, vs, c, marking())->0),
        forall|i: int|
            0 <= i < n ==> (#[trigger] vs[i] matches Visit::Variable(_, definition, _) ==> (
            definition matches Some(id) && id.0 < c.definition_infos.len())),
    decreases n,
{
    if n > 0 {
        let k = (n - 1) as nat;
        law_marking_marks(k, vs, c);
        let c1 = for_each(k, vs, c, marking())->0;
        let c2 = for_each(n, vs, c, marking())->0;
        assert forall|id: int| 0 <= id < c.definition_infos.len() implies {
            let old = c.definition_infos[id];
            let new = #[trigger] c2.definition_infos[id];
            if is_met(id, n, vs) {
                &&& new.undergoing_type_inference
                &&& new.typ is Some
                &&& old.typ is Some ==> new.typ == old.typ
                &&& old.typ is None ==> new.typ->0 is Mono && new.typ->0.body() is Variable
                &&& new.required_traits == old.required_traits
            } else {
                new == old
            }
        } by {
            let _ = c1.definition_infos[id];
            lemma_met(id, n, vs);
        }
    }
}

proof fn lemma_met(id: int, n: nat, vs: Seq<Visit>)
    requires
        0 < n <= vs.len(),
    ensures
        is_met(id, n, vs) <==> is_met(id, (n - 1) as nat, vs) || (vs[n - 1] matches Visit::Variable(
            _,
            Some(own),
            _,
        ) && own.0 == id),
{
    let last = vs[n - 1];
    if let Visit::Variable(_, Some(own), _) = last {
        if own.0 == id {
            assert(is_met(id, n, vs));
        }
    }
    if is_met(id, (n - 1) as nat, vs) {
        let i = choose|i: int|
            0 <= i < n - 1 && (#[trigger] vs[i] matches Visit::Variable(_, Some(own), _) && own.0
                == id);
        let _ = vs[i];
        assert(is_met(id, n, vs));
    }
}

/// The definition without its mark, if it is that of a variable that was met and does not wait for
/// others.
pub open spec fn unmarked(
    id: int,
    n: nat,
    vs: Seq<Visit>,
    waiting: Seq<DefinitionInfoId>,
    def: Def,
) -> Def {
    if is_met(id, n, vs) && !waiting.contains(DefinitionInfoId(id as usize)) {
        Def { undergoing_type_inference: false, ..def }
    } else {
        def
    }
}

/// Taking the marks off a pattern takes them off the definitions of its variables that do not wait
/// for others. Nothing else changes of any definition.
pub proof fn law_unmarking_unmarks(
    n: nat,
    vs: Seq<Visit>,
    c: Cache,
    waiting: Seq<DefinitionInfoId>,
)
    requires
        n <= vs.len(),
        for_each(n, vs, c, unmarking(waiting)) is Some,
    ensures
        ({
            let c1 = for_each(n, vs, c, unmarking(waiting))->0;
            &&& c1.definition_infos.len() == c.definition_infos.len()
            &&& forall|id: int|
                0 <= id < c.definition_infos.len() ==> (#[trigger] c1.definition_infos[id])
                    == unmarked(id, n, vs, waiting, c.definition_infos[id])
        }),
    decreases n,
{
    if n > 0 {
        let k = (n - 1) as nat;
        law_unmarking_unmarks(k, vs, c, waiting);
        let c1 = for_each(k, vs, c, unmarking(waiting))->0;
        let c2 = for_each(n, vs, c, unmarking(waiting))->0;
        assert forall|id: int| 0 <= id < c.definition_infos.len() implies (
        #[trigger] c2.definition_infos[id]) == unmarked(
            id,
            n,
            vs,
            waiting,
            c.definition_infos[id],
        ) by {
            let _ = c1.definition_infos[id];
            lemma_met(id, n, vs);
            if let Visit::Variable(_, Some(own), _) = vs[n - 1] {
                if own.0 == id {
                    assert(own == DefinitionInfoId(id as usize));
                }
            }
        }
    }
}

/// Whether the value was inferred at the given level while the variables of the pattern were
/// marked.
pub open spec fn is_value<A: Expression>(
    expr: Tree,
    c1: Cache,
    v: Outcome,
    level: LetBindingLevel,
    p: Pat,
) -> bool {
    &&& inferred::<A>(expr, c1) == Some(v)
    &&& c1.current_level == level
    &&& forall|id: int|
        0 <= id < c1.definition_infos.len() && is_met(id, visits_of(p).len(), visits_of(p)) ==> (
        #[trigger] c1.definition_infos[id]).undergoing_type_inference
}

/// The value of a definition is inferred at the level of the definition, while the variables of the
/// pattern are marked. What it comes to is what the definition has before it is generalized, one
/// level below. With nothing to report the pattern is of the type of the value.
pub proof fn law_definition_has_its_value<A: Expression>(t: Tree, c: Cache)
    requires
        only_goes_on::<A>(),
        t is Definition,
        definition_begun::<A>(t, c) matches Some(Begun::Value(o, _)) && o.cache.type_bindings.len()
            <= usize::MAX,
    ensures
        definition_begun::<A>(t, c) matches Some(Begun::Value(o, previous)) && {
            let own = t->Definition_level->0;
            let expr = *t->Definition_expr;
            let p = t->Definition_pattern;
            &&& previous == c.current_level
            &&& t->Definition_level is Some
            &&& o.cache.current_level.0 + 1 == own.0
            &&& o.tree is Definition
            &&& gains(c, o.cache)
            &&& exists|c1: Cache, v: Outcome| #[trigger]
                is_value::<A>(expr, c1, v, own, p) && gains(c, c1) && gains(v.cache, o.cache)
                    && *o.tree->Definition_expr == v.tree && o.result == v.result
            &&& reports_nothing(c, o.cache) ==> is_of(
                p,
                o.tree->Definition_pattern,
                noted(*o.tree->Definition_expr),
                o.cache,
            )
        },
{
    if let (Tree::Definition { pattern, expr, level, .. }, Some(Begun::Value(o, previous))) = (
        t,
        definition_begun::<A>(t, c),
    ) {
        let c1 = match expr.lambda_of() {
            Some((args, body_type)) => {
                law_initializing_goes_on(pattern, args, body_type, c);
                function_initialized(pattern, args, body_type, c)->0
            },
            None => c,
        };
        let vs = visits_of(pattern);
        lemma_marking_gains(vs.len(), vs, c1);
        law_marking_pushes(vs.len(), vs, c1);
        law_marking_marks(vs.len(), vs, c1);
        let c2 = for_each_variable(pattern, c1, marking())->0;
        let own = level->0;
        let start = c2.at_level(own);
        lemma_inferred::<A>(*expr, start);
        let v = inferred::<A>(*expr, start)->0;
        lemma_noted(A::rule(*expr, start)->0.tree, v.result.typ);
        let c3 = v.cache.at_level(LetBindingLevel((own.0 - 1) as usize));
        law_binding_goes_on(pattern, v.result.typ, Seq::empty(), false, c3);
        law_gains_further(c, c1, c2);
        assert(gains(c, start));
        assert(gains(start, v.cache));
        law_gains_further(c, start, v.cache);
        assert(gains(v.cache, o.cache));
        law_gains_further(c, v.cache, o.cache);
        assert(is_value::<A>(*expr, start, v, own, pattern)) by {
            assert forall|id: int|
                0 <= id < start.definition_infos.len() && is_met(id, vs.len(), vs) implies (
            #[trigger] start.definition_infos[id]).undergoing_type_inference by {
                let _ = c2.definition_infos[id];
            }
        }
        if reports_nothing(c, o.cache) {
            let end = o.cache;
            assert(goes_on(c3, c3));
            assert(goes_on(end, end));
            law_bound_pattern_is_of_type(
                pattern,
                v.result.typ,
                Seq::empty(),
                false,
                c3,
                c3,
                end,
            );
        }
    }
}

/// A definition that is finished is of type unit and has all the constraints that are left, and the
/// effects of its value. Its variables are no longer marked, but for those that wait for others.
pub proof fn law_finished_definition_keeps_all(
    p: Pat,
    effects: EffectRow,
    traits: Seq<Constraint>,
    previous: LetBindingLevel,
    waiting: Seq<DefinitionInfoId>,
    c: Cache,
)
    requires
        definition_finished(p, effects, traits, previous, waiting, c) is Some,
    ensures
        ({
            let (r, c1) = definition_finished(p, effects, traits, previous, waiting, c)->0;
            let vs = visits_of(p);
            &&& r.typ == unit_ty()
            &&& r.traits == traits
            &&& r.effects == effects
            &&& c1.definition_infos.len() == c.definition_infos.len()
            &&& forall|id: int|
                #![trigger c1.definition_infos[id]]
                0 <= id < c.definition_infos.len() ==> {
                    let old = c.definition_infos[id];
                    let new = c1.definition_infos[id];
                    &&& new.typ == old.typ
                    &&& new.required_traits == old.required_traits
                    &&& new.undergoing_type_inference == if is_met(id, vs.len(), vs) {
                        old.undergoing_type_inference && waiting.contains(
                            DefinitionInfoId(id as usize),
                        )
                    } else {
                        old.undergoing_type_inference
                    }
                }
            &&& gains(c, c1)
        }),
{
    let vs = visits_of(p);
    let start = c.at_level(previous);
    let c1 = for_each_variable(p, start, unmarking(waiting))->0;
    lemma_unmarking_gains(vs.len(), vs, start, waiting);
    law_unmarking_unmarks(vs.len(), vs, start, waiting);
    let end = (definition_finished(p, effects, traits, previous, waiting, c)->0).1;
    assert(gains(c, start));
    assert(gains(c1, end));
    law_gains_further(c, start, c1);
    law_gains_further(c, c1, end);
    assert forall|id: int|
        #![trigger end.definition_infos[id]]
        0 <= id < c.definition_infos.len() implies {
        let old = c.definition_infos[id];
        let new = end.definition_infos[id];
        &&& new.typ == old.typ
        &&& new.required_traits == old.required_traits
        &&& new.undergoing_type_inference == if is_met(id, vs.len(), vs) {
            old.undergoing_type_inference && waiting.contains(DefinitionInfoId(id as usize))
        } else {
            old.undergoing_type_inference
        }
    } by {
        let _ = c1.definition_infos[id];
        assert(end.definition_infos[id] == c1.definition_infos[id]);
    }
}

/// Whether the pattern declares a variable with the definition: it is that variable, or one of its
/// parts declares it.
pub open spec fn declares_variable(p: Pat, id: int) -> bool
    decreases p,
{
    match p {
        Pat::Variable(v) => v.definition matches Some(own) && own.0 == id,
        Pat::Annotation(lhs, _, _) => declares_variable(*lhs, id),
        Pat::Call { args, .. } => exists|i: int|
            0 <= i < args.len() && declares_variable(#[trigger] args[i], id),
        _ => false,
    }
}

/// What is met on the way through a pattern are all the variables that it declares, and no others.
pub proof fn law_all_variables_are_met(p: Pat, id: int)
    ensures
        is_met(id, visits_of(p).len(), visits_of(p)) <==> declares_variable(p, id),
    decreases p,
{
    let vs = visits_of(p);
    match p {
        Pat::Variable(v) => {
            assert(vs[0] == Visit::Variable(v.name, v.definition, v.impl_scope));
        },
        Pat::Annotation(lhs, _, _) => law_all_variables_are_met(*lhs, id),
        Pat::Call { args, .. } => lemma_all_are_met(args, id),
        _ => {
            assert(vs[0] == Visit::Invalid(p.location()));
        },
    }
}

proof fn lemma_all_are_met(ps: Seq<Pat>, id: int)
    ensures
        is_met(id, visits_of_all(ps).len(), visits_of_all(ps)) <==> exists|i: int|
            0 <= i < ps.len() && declares_variable(#[trigger] ps[i], id),
    decreases ps,
{
    let vs = visits_of_all(ps);
    if ps.len() > 0 {
        let front = ps.subrange(0, ps.len() - 1);
        let last = ps[ps.len() - 1];
        lemma_all_are_met(front, id);
        law_all_variables_are_met(last, id);
        let (xs, ys) = (visits_of_all(front), visits_of(last));
        assert(vs == xs + ys);
        if is_met(id, vs.len(), vs) {
            let i = choose|i: int|
                0 <= i < vs.len() && (#[trigger] vs[i] matches Visit::Variable(_, Some(own), _)
                    && own.0 == id);
            if i < xs.len() {
                assert(xs[i] == vs[i]);
                assert(is_met(id, xs.len(), xs));
                let j = choose|j: int|
                    0 <= j < front.len() && declares_variable(#[trigger] front[j], id);
                assert(ps[j] == front[j]);
            } else {
                assert(ys[i - xs.len()] == vs[i]);
                assert(is_met(id, ys.len(), ys));
            }
        }
        if exists|i: int| 0 <= i < ps.len() && declares_variable(#[trigger] ps[i], id) {
            let i = choose|i: int| 0 <= i < ps.len() && declares_variable(#[trigger] ps[i], id);
            if i < front.len() {
                assert(front[i] == ps[i]);
                assert(is_met(id, xs.len(), xs));
                let j = choose|j: int|
                    0 <= j < xs.len() && (#[trigger] xs[j] matches Visit::Variable(_, Some(own), _)
                        && own.0 == id);
                assert(vs[j] == xs[j]);
            } else {
                assert(is_met(id, ys.len(), ys));
                let j = choose|j: int|
                    0 <= j < ys.len() && (#[trigger] ys[j] matches Visit::Variable(_, Some(own), _)
                        && own.0 == id);
                assert(vs[j + xs.len()] == ys[j]);
            }
        }
    }
}

/// Whether the type of a pattern can be told before it is bound: that of a variable, of the unit
/// literal, of what is annotated, and of a pair of such patterns.
pub open spec fn is_knowable(p: Pat) -> bool
    decreases p,
{
    match p {
        Pat::Literal(is_unit, _, _) => is_unit,
        Pat::Variable(_) => true,
        Pat::Annotation(_, _, _) => true,
        Pat::Call { is_pair, args, .. } => is_pair && args.len() == 2 && is_knowable(args[0])
            && is_knowable(args[1]),
        _ => false,
    }
}

/// Whether the type is the one that the pattern is known to have: a variable has the type of its
/// definition, or a new one if that has none, and an annotated pattern the declared type.
pub open spec fn is_known_as(p: Pat, t: Ty, c: Cache) -> bool
    decreases p,
{
    match p {
        Pat::Literal(is_unit, _, _) => is_unit && t == unit_ty(),
        Pat::Variable(v) => v.definition matches Some(id) && match c.definition_infos[id.0
            as int].typ {
            Some(scheme) => scheme == Scheme::Mono(t),
            None => t matches Ty::Variable(x) && x.0 >= c.type_bindings.len(),
        },
        Pat::Annotation(_, typ, _) => typ == Some(t),
        Pat::Call { is_pair, args, .. } => {
            &&& is_pair
            &&& args.len() == 2
            &&& t is Application
            &&& t->Application_1.len() == 2
            &&& t == pair_ty(t->Application_1)
            &&& is_known_as(args[0], t->Application_1[0], c)
            &&& is_known_as(args[1], t->Application_1[1], c)
        },
        _ => false,
    }
}

/// Whether only variables were made, and none of them is bound.
pub open spec fn only_makes_variables(before: Cache, after: Cache) -> bool {
    &&& after == (Cache { type_bindings: after.type_bindings, ..before })
    &&& before.type_bindings.len() <= after.type_bindings.len()
    &&& forall|i: int|
        0 <= i < before.type_bindings.len() ==> #[trigger] after.type_bindings[i]
            == before.type_bindings[i]
}

/// The type that a pattern is known to have before it is bound, if it can be told.
pub proof fn law_pattern_is_known(p: Pat, before: Cache, c: Cache)
    requires
        pattern_type(p, c) matches Some((_, c1)) && c1.type_bindings.len() <= usize::MAX,
        only_makes_variables(before, c),
    ensures
        ({
            let (t, c1) = pattern_type(p, c)->0;
            &&& only_makes_variables(before, c1)
            &&& c.type_bindings.len() <= c1.type_bindings.len()
            &&& t is Some <==> is_knowable(p)
            &&& t matches Some(t) ==> is_known_as(p, t, before)
        }),
    decreases p,
{
    match p {
        Pat::Call { is_pair, args, .. } => {
            if is_pair && args.len() == 2 {
                let (a, c1) = pattern_type(args[0], c)->0;
                if a is Some {
                    let (b, c2) = pattern_type(args[1], c1)->0;
                    assert(c1.type_bindings.len() <= c2.type_bindings.len()) by {
                        lemma_pattern_type_grows(args[1], c1);
                    }
                    law_pattern_is_known(args[0], before, c);
                    law_pattern_is_known(args[1], before, c1);
                } else {
                    law_pattern_is_known(args[0], before, c);
                }
            }
        },
        _ => {},
    }
}

proof fn lemma_pattern_type_grows(p: Pat, c: Cache)
    ensures
        pattern_type(p, c) matches Some((_, c1)) ==> c.type_bindings.len()
            <= c1.type_bindings.len(),
    decreases p,
{
    if let Pat::Call { is_pair, args, .. } = p {
        if is_pair && args.len() == 2 {
            lemma_pattern_type_grows(args[0], c);
            if let Some((_, c1)) = pattern_type(args[0], c) {
                lemma_pattern_type_grows(args[1], c1);
            }
        }
    }
}

proof fn lemma_pattern_types_grow(n: nat, ps: Seq<Pat>, c: Cache)
    ensures
        pattern_types(n, ps, c) matches Some((_, c1)) ==> c.type_bindings.len()
            <= c1.type_bindings.len(),
    decreases n,
{
    if n > 0 {
        lemma_pattern_types_grow((n - 1) as nat, ps, c);
        if let Some((_, c1)) = pattern_types((n - 1) as nat, ps, c) {
            lemma_pattern_type_grows(ps[n - 1], c1);
        }
    }
}

proof fn lemma_patterns_are_known(n: nat, ps: Seq<Pat>, c: Cache)
    requires
        n <= ps.len(),
        pattern_types(n, ps, c) matches Some((_, c1)) && c1.type_bindings.len() <= usize::MAX,
    ensures
        ({
            let (ts, c1) = pattern_types(n, ps, c)->0;
            &&& only_makes_variables(c, c1)
            &&& ts is Some <==> forall|i: int| 0 <= i < n ==> is_knowable(#[trigger] ps[i])
            &&& ts matches Some(ts) ==> ts.len() == n && (forall|i: int|
                0 <= i < n ==> is_known_as(ps[i], #[trigger] ts[i], c))
        }),
    decreases n,
{
    if n > 0 {
        let k = (n - 1) as nat;
        let (ts, c1) = pattern_types(k, ps, c)->0;
        if ts is Some {
            lemma_pattern_type_grows(ps[n - 1], c1);
            lemma_patterns_are_known(k, ps, c);
            law_pattern_is_known(ps[n - 1], c, c1);
            let _ = ps[n - 1];
            if is_knowable(ps[n - 1]) {
                let all = (pattern_types(n, ps, c)->0).0->0;
                assert forall|i: int| 0 <= i < n implies is_known_as(
                    ps[i],
                    #[trigger] all[i],
                    c,
                ) by {
                    if i < k {
                        assert(all[i] == ts->0[i]);
                    }
                }
            }
        } else {
            lemma_patterns_are_known(k, ps, c);
            let i = choose|i: int| 0 <= i < k && !is_knowable(#[trigger] ps[i]);
            assert(!is_knowable(ps[i]));
        }
    }
}

/// A function that has no type yet gets one before its body is inferred, if the types of all its
/// parameters can be told: a function of just those, with the declared result if there is one. What
/// has a type already keeps it, and no other definition changes.
pub proof fn law_function_is_known(
    v: PatVar,
    parameters: Seq<Pat>,
    body_type: Option<Ty>,
    c: Cache,
)
    requires
        function_initialized(Pat::Variable(v), parameters, body_type, c) matches Some(c1)
            && c1.type_bindings.len() <= usize::MAX,
        v.definition is Some,
    ensures
        ({
            let c1 = function_initialized(Pat::Variable(v), parameters, body_type, c)->0;
            let id = (v.definition->0).0 as int;
            let before = c.definition_infos[id];
            let after = c1.definition_infos[id];
            &&& id < c.definition_infos.len()
            &&& c1.definition_infos.len() == c.definition_infos.len()
            &&& forall|i: int|
                0 <= i < c.definition_infos.len() && i != id ==> #[trigger] c1.definition_infos[i]
                    == c.definition_infos[i]
            &&& before.typ is Some ==> c1 == c
            &&& before.typ is None && !(forall|i: int|
                0 <= i < parameters.len() ==> is_knowable(#[trigger] parameters[i])) ==> after
                == before
            &&& before.typ is None && (forall|i: int|
                0 <= i < parameters.len() ==> is_knowable(#[trigger] parameters[i])) ==> (
            after.typ matches Some(Scheme::Mono(t)) && is_first_type(
                t,
                parameters,
                body_type,
                c,
            ))
        }),
{
    let p = Pat::Variable(v);
    let vs = visits_of(p);
    reveal_with_fuel(last_definition, 2);
    assert(vs[0] == Visit::Variable(v.name, v.definition, v.impl_scope));
    assert(last_definition(vs.len(), vs, c) == (v.definition, c));
    let id = v.definition->0;
    if c.definition_infos[id.0 as int].typ is None {
        let n = parameters.len();
        lemma_pattern_types_grow(n, parameters, c);
        let (ts, c2) = pattern_types(n, parameters, c)->0;
        let c1 = function_initialized(p, parameters, body_type, c)->0;
        assert(c2.type_bindings.len() <= c1.type_bindings.len());
        lemma_patterns_are_known(n, parameters, c);
    }
}

/// Whether the type is that of a function of which only the parameters are known, and the result if
/// it was declared. All else is new.
pub open spec fn is_first_type(
    t: Ty,
    parameters: Seq<Pat>,
    body_type: Option<Ty>,
    before: Cache,
) -> bool {
    let new = |u: Ty| u matches Ty::Variable(x) && x.0 >= before.type_bindings.len();
    &&& t is Function
    &&& t->parameters.len() == parameters.len()
    &&& forall|i: int|
        0 <= i < parameters.len() ==> is_known_as(
            parameters[i],
            #[trigger] t->parameters[i],
            before,
        )
    &&& match body_type {
        Some(declared) => *t->return_type == declared,
        None => new(*t->return_type),
    }
    &&& new(*t->environment)
    &&& new(*t->Function_effects)
    &&& t->environment != t->Function_effects
    &&& !t->has_varargs
}

} // verus!
