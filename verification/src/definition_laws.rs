//! What is left as it was once a definition was inferred: all that was found out before, the call
//! stack, and the level.

use crate::cache::{
    Cache, Constraint, DefinitionInfoId, DefinitionKind, ImplScopeId, Reason, Required, VariableId,
};
use crate::definitions::{
    function_initialized, in_progress, last_definition, marking, marks_itself, nested_definition,
    pattern_types, unmarking,
};
use crate::effect_sets::EffectRow;
use crate::inference_laws::{law_binding_goes_on, only_goes_on};
use crate::patterns::{
    bound_pattern, bound_patterns, for_each, for_each_variable, fresh_types, pattern_type,
    visits_of, visits_of_all, Pat, Visit,
};
use crate::progress::{
    gains, goes_on, law_gains_further, law_goes_on_further, lemma_definition_goes_on,
    lemma_fresh_goes_on,
};
use crate::results::{pair_ty, unit_ty};
use crate::solve::after_unify;
use crate::tree::{inferred, Expression, Inferable, Outcome, Tree};
use crate::types::{LetBindingLevel, Ty};
use crate::values::{definition_begun, definition_finished, Begun};
use vstd::prelude::*;

verus! {

/// The definitions of the variables among the first `n` that were met.
pub open spec fn definitions_met(n: nat, vs: Seq<Visit>) -> Seq<DefinitionInfoId>
    decreases n,
{
    if n == 0 {
        Seq::empty()
    } else {
        let before = definitions_met((n - 1) as nat, vs);
        match vs[n - 1] {
            Visit::Variable(_, Some(id), _) => before.push(id),
            _ => before,
        }
    }
}

/// Marking the variables of a pattern puts their definitions on the call stack, in order, and
/// leaves the level alone.
pub proof fn law_marking_pushes(n: nat, vs: Seq<Visit>, c: Cache)
    requires
        for_each(n, vs, c, marking()) is Some,
    ensures
        for_each(n, vs, c, marking())->0.call_stack == c.call_stack + definitions_met(n, vs),
        for_each(n, vs, c, marking())->0.current_level == c.current_level,
    decreases n,
{
    if n > 0 {
        law_marking_pushes((n - 1) as nat, vs, c);
        assert(c.call_stack + definitions_met(n, vs) =~= for_each(
            n,
            vs,
            c,
            marking(),
        )->0.call_stack);
    } else {
        assert(c.call_stack + definitions_met(n, vs) =~= c.call_stack);
    }
}

/// Taking the marks off again takes as many definitions off the call stack, if it holds that many,
/// and leaves the level alone.
pub proof fn law_unmarking_pops(
    n: nat,
    vs: Seq<Visit>,
    c: Cache,
    mutually_recursive: Seq<DefinitionInfoId>,
)
    requires
        for_each(n, vs, c, unmarking(mutually_recursive)) is Some,
        definitions_met(n, vs).len() <= c.call_stack.len(),
    ensures
        for_each(n, vs, c, unmarking(mutually_recursive))->0.call_stack == c.call_stack.take(
            c.call_stack.len() - definitions_met(n, vs).len(),
        ),
        for_each(n, vs, c, unmarking(mutually_recursive))->0.current_level == c.current_level,
    decreases n,
{
    let stack = c.call_stack;
    if n > 0 {
        law_unmarking_pops((n - 1) as nat, vs, c, mutually_recursive);
        let met = definitions_met((n - 1) as nat, vs).len();
        if let Visit::Variable(_, Some(id), _) = vs[n - 1] {
            assert(stack.take(stack.len() - met).drop_last() =~= stack.take(
                stack.len() - met - 1,
            ));
        }
    } else {
        assert(stack.take(stack.len() as int) =~= stack);
    }
}

/// Once the marks that were put on the variables of a pattern are taken off, the call stack is what
/// it was, if what happened in between left it alone.
pub proof fn law_marks_are_taken_off(
    p: Pat,
    c: Cache,
    between: Cache,
    mutually_recursive: Seq<DefinitionInfoId>,
)
    requires
        for_each_variable(p, c, marking()) is Some,
        between.call_stack == for_each_variable(p, c, marking())->0.call_stack,
        for_each_variable(p, between, unmarking(mutually_recursive)) is Some,
    ensures
        for_each_variable(p, between, unmarking(mutually_recursive))->0.call_stack
            == c.call_stack,
{
    let vs = visits_of(p);
    law_marking_pushes(vs.len(), vs, c);
    law_unmarking_pops(vs.len(), vs, between, mutually_recursive);
    let stack = between.call_stack;
    assert(stack.take(stack.len() - definitions_met(vs.len(), vs).len()) =~= c.call_stack);
}

/// Binding a pattern to a type leaves its variables as they are.
pub proof fn law_binding_keeps_variables(
    p: Pat,
    t: Ty,
    required: Seq<Required>,
    generalize: bool,
    c: Cache,
)
    requires
        bound_pattern(p, t, required, generalize, c) is Some,
    ensures
        visits_of((bound_pattern(p, t, required, generalize, c)->0).0) == visits_of(p),
    decreases p,
{
    match p {
        Pat::Annotation(lhs, typ, location) => {
            let c1 = after_unify(
                t,
                typ->0,
                location,
                Reason::PatternTypeDoesNotMatchAnnotatedType,
                c,
            )->0;
            law_binding_keeps_variables(*lhs, t, required, generalize, c1);
        },
        Pat::Call { is_pair: true, args, location, .. } => {
            let (elements, c1) = fresh_types(args.len(), c);
            let c2 = after_unify(
                pair_ty(elements),
                t,
                location,
                Reason::ExpectedPairTypeFromPattern,
                c1,
            )->0;
            let c3 = c2.fresh(c2.current_level);
            lemma_binding_all_keeps_variables(args, elements, required, generalize, c3);
        },
        _ => {},
    }
}

proof fn lemma_binding_all_keeps_variables(
    ps: Seq<Pat>,
    ts: Seq<Ty>,
    required: Seq<Required>,
    generalize: bool,
    c: Cache,
)
    requires
        bound_patterns(ps, ts, required, generalize, c) is Some,
    ensures
        (bound_patterns(ps, ts, required, generalize, c)->0).0.len() == ps.len(),
        visits_of_all((bound_patterns(ps, ts, required, generalize, c)->0).0) == visits_of_all(ps),
    decreases ps,
{
    if ps.len() > 0 {
        let front = ps.subrange(0, ps.len() - 1);
        let last = ps[ps.len() - 1];
        let (front1, c1) = bound_patterns(front, ts, required, generalize, c)->0;
        lemma_binding_all_keeps_variables(front, ts, required, generalize, c);
        law_binding_keeps_variables(last, ts[ps.len() - 1], required, generalize, c1);
        let (last1, c2) = bound_pattern(last, ts[ps.len() - 1], required, generalize, c1)->0;
        let bound = front1.push(last1);
        assert(bound.subrange(0, bound.len() - 1) =~= front1);
    }
}

/// The level to go back to after a definition is the one there was before it, and finishing the
/// definition goes back to it. The variables that are then finished are those that were begun.
pub proof fn law_definition_restores_level<A: Inferable>(
    t: Tree,
    c: Cache,
    effects: EffectRow,
    traits: Seq<Constraint>,
    mutually_recursive: Seq<DefinitionInfoId>,
    end: Cache,
)
    requires
        definition_begun::<A>(t, c) matches Some(Begun::Value(_, _)),
    ensures
        definition_begun::<A>(t, c) matches Some(Begun::Value(o, previous)) && previous
            == c.current_level && visits_of(o.tree->Definition_pattern) == visits_of(
            t->Definition_pattern,
        ) && (definition_finished(
            o.tree->Definition_pattern,
            effects,
            traits,
            previous,
            mutually_recursive,
            end,
        ) matches Some((_, c1)) ==> c1.current_level == c.current_level),
{
    if let Tree::Definition { pattern, expr, level, .. } = t {
        let initialized = match expr.lambda_of() {
            Some((args, body_type)) => {
                law_initializing_goes_on(pattern, args, body_type, c);
                function_initialized(pattern, args, body_type, c)
            },
            None => Some(c),
        };
        let vs = visits_of(pattern);
        law_marking_pushes(vs.len(), vs, initialized->0);
        if let Some(Begun::Value(o, previous)) = definition_begun::<A>(t, c) {
            let c2 = for_each_variable(pattern, initialized->0, marking())->0;
            let own = level->0;
            let o1 = inferred::<A>(*expr, c2.at_level(own))->0;
            let c3 = o1.cache.at_level(LetBindingLevel((own.0 - 1) as usize));
            law_binding_keeps_variables(pattern, o1.result.typ, Seq::empty(), false, c3);
            let p = o.tree->Definition_pattern;
            assert(visits_of(p) == vs);
            lemma_unmarking_keeps_level(vs.len(), vs, end.at_level(previous), mutually_recursive);
        }
    }
}

/// What generalizing a definition leaves behind: its pattern, the constraints that are left, the
/// definitions that wait for others, and the cache.
#[verifier::ext_equal]
pub struct Generalized {
    pub pattern: Pat,
    pub traits: Seq<Constraint>,
    pub mutually_recursive: Seq<DefinitionInfoId>,
    pub cache: Cache,
}

/// What inferring a definition comes to, where generalizing it in between leaves `between` behind:
/// it is begun, generalized and finished, or there is nothing to do.
pub open spec fn definition_inferred<A: Inferable>(
    t: Tree,
    c: Cache,
    between: Generalized,
) -> Option<Outcome> {
    match definition_begun::<A>(t, c) {
        None => None,
        Some(Begun::Done(o)) => Some(o),
        Some(Begun::Value(o, previous)) => match definition_finished(
            between.pattern,
            o.result.effects,
            between.traits,
            previous,
            between.mutually_recursive,
            between.cache,
        ) {
            None => None,
            Some((result, cache)) => Some(
                Outcome {
                    tree: Tree::Definition {
                        pattern: between.pattern,
                        expr: o.tree->Definition_expr,
                        level: o.tree->Definition_level,
                        location: o.tree.location_of(),
                        typ: o.tree.type_of(),
                    },
                    result,
                    cache,
                },
            ),
        },
    }
}

/// Inferring a definition gives unit, leaves a type on it, and leaves the level as it was before:
/// entering the right-hand side and leaving it cancel out, whatever generalizing does in between.
/// Inferring a definition that has a type already does nothing: the definition stays as it is, and
/// there are no constraints.
pub proof fn law_definition_is_unit<A: Inferable>(t: Tree, c: Cache, between: Generalized)
    requires
        definition_inferred::<A>(t, c, between) is Some,
    ensures
        ({
            let o = definition_inferred::<A>(t, c, between)->0;
            &&& o.result.typ == unit_ty()
            &&& o.tree.type_of() is Some
            &&& o.cache.current_level == c.current_level
            &&& t.type_of() is Some ==> o.tree == t && o.result.traits.len() == 0 && o.cache
                == c.fresh(c.current_level)
        }),
{
    if let Some(Begun::Value(o, previous)) = definition_begun::<A>(t, c) {
        law_definition_restores_level::<A>(
            t,
            c,
            o.result.effects,
            between.traits,
            between.mutually_recursive,
            between.cache,
        );
        let vs = visits_of(between.pattern);
        lemma_unmarking_keeps_level(
            vs.len(),
            vs,
            between.cache.at_level(previous),
            between.mutually_recursive,
        );
    }
}

proof fn lemma_unmarking_keeps_level(
    n: nat,
    vs: Seq<Visit>,
    c: Cache,
    mutually_recursive: Seq<DefinitionInfoId>,
)
    ensures
        for_each(n, vs, c, unmarking(mutually_recursive)) matches Some(c1) ==> c1.current_level
            == c.current_level,
    decreases n,
{
    if n > 0 {
        lemma_unmarking_keeps_level((n - 1) as nat, vs, c, mutually_recursive);
    }
}

proof fn lemma_last_definition(n: nat, vs: Seq<Visit>, c: Cache)
    ensures
        goes_on(c, last_definition(n, vs, c).1),
    decreases n,
{
    if n > 0 {
        lemma_last_definition((n - 1) as nat, vs, c);
        let c1 = last_definition((n - 1) as nat, vs, c).1;
        law_goes_on_further(c, c1, last_definition(n, vs, c).1);
    }
}

proof fn lemma_pattern_type(p: Pat, c: Cache)
    ensures
        pattern_type(p, c) matches Some((_, c1)) ==> goes_on(c, c1),
    decreases p,
{
    match p {
        Pat::Variable(_) => lemma_fresh_goes_on(c, c.current_level),
        Pat::Call { is_pair: true, args, .. } => {
            if args.len() == 2 {
                lemma_pattern_type(args[0], c);
                if let Some((Some(a), c1)) = pattern_type(args[0], c) {
                    lemma_pattern_type(args[1], c1);
                    if let Some((_, c2)) = pattern_type(args[1], c1) {
                        law_goes_on_further(c, c1, c2);
                    }
                }
            }
        },
        _ => {},
    }
}

proof fn lemma_pattern_types(n: nat, ps: Seq<Pat>, c: Cache)
    ensures
        pattern_types(n, ps, c) matches Some((_, c1)) ==> goes_on(c, c1),
    decreases n,
{
    if n > 0 {
        lemma_pattern_types((n - 1) as nat, ps, c);
        if let Some((_, c1)) = pattern_types((n - 1) as nat, ps, c) {
            lemma_pattern_type(ps[n - 1], c1);
            if let Some((_, c2)) = pattern_type(ps[n - 1], c1) {
                law_goes_on_further(c, c1, c2);
            }
        }
    }
}

/// Giving a function its first type keeps what there was.
pub proof fn law_initializing_goes_on(
    p: Pat,
    parameters: Seq<Pat>,
    body_type: Option<Ty>,
    c: Cache,
)
    ensures
        function_initialized(p, parameters, body_type, c) matches Some(c1) ==> goes_on(c, c1),
{
    let vs = visits_of(p);
    lemma_last_definition(vs.len(), vs, c);
    let (id, c1) = last_definition(vs.len(), vs, c);
    lemma_pattern_types(parameters.len(), parameters, c1);
    if let (Some(id), Some(end)) = (id, function_initialized(p, parameters, body_type, c)) {
        if c1.definition_infos[id.0 as int].typ is None {
            let (types, c2) = pattern_types(parameters.len(), parameters, c1)->0;
            law_goes_on_further(c, c1, c2);
            if types is Some {
                let level = c2.current_level;
                lemma_fresh_goes_on(c2, level);
                let c3 = if body_type is Some {
                    c2
                } else {
                    c2.fresh(level)
                };
                law_goes_on_further(c, c2, c3);
                let c4 = c3.fresh(level);
                let c5 = c4.fresh(level);
                lemma_fresh_goes_on(c3, level);
                lemma_fresh_goes_on(c4, level);
                law_goes_on_further(c, c3, c4);
                law_goes_on_further(c, c4, c5);
                let def = end.definition_infos[id.0 as int];
                lemma_definition_goes_on(c5, id, def);
                assert(end == c5.with_definition(id, def));
                law_goes_on_further(c, c5, end);
            }
        }
    }
}

pub proof fn lemma_marking_gains(n: nat, vs: Seq<Visit>, c: Cache)
    ensures
        for_each(n, vs, c, marking()) matches Some(c1) ==> gains(c, c1),
    decreases n,
{
    if n > 0 {
        lemma_marking_gains((n - 1) as nat, vs, c);
        if let (Some(c1), Some(c2)) = (
            for_each((n - 1) as nat, vs, c, marking()),
            for_each(n, vs, c, marking()),
        ) {
            assert(gains(c1, c2));
            law_gains_further(c, c1, c2);
        }
    }
}

pub proof fn lemma_unmarking_gains(
    n: nat,
    vs: Seq<Visit>,
    c: Cache,
    mutually_recursive: Seq<DefinitionInfoId>,
)
    ensures
        for_each(n, vs, c, unmarking(mutually_recursive)) matches Some(c1) ==> gains(c, c1),
    decreases n,
{
    if n > 0 {
        let k = (n - 1) as nat;
        lemma_unmarking_gains(k, vs, c, mutually_recursive);
        if let (Some(c1), Some(c2)) = (
            for_each(k, vs, c, unmarking(mutually_recursive)),
            for_each(n, vs, c, unmarking(mutually_recursive)),
        ) {
            assert(gains(c1, c2));
            law_gains_further(c, c1, c2);
        }
    }
}

/// Inferring a definition only goes on, as long as that holds of its value and of the step that
/// generalizes it between beginning and finishing.
pub proof fn law_definition_goes_on<A: Expression>(
    t: Tree,
    c: Cache,
    between: Cache,
    effects: EffectRow,
    traits: Seq<Constraint>,
    mutually_recursive: Seq<DefinitionInfoId>,
)
    requires
        only_goes_on::<A>(),
        definition_begun::<A>(t, c) matches Some(Begun::Value(o, _)) && goes_on(o.cache, between),
    ensures
        definition_begun::<A>(t, c) matches Some(Begun::Value(o, previous)) && (
        definition_finished(
            o.tree->Definition_pattern,
            effects,
            traits,
            previous,
            mutually_recursive,
            between,
        ) matches Some((_, end)) ==> goes_on(c, end)),
{
    if let (Tree::Definition { pattern, expr, level, .. }, Some(Begun::Value(o, previous))) = (
        t,
        definition_begun::<A>(t, c),
    ) {
        let c1 = match expr.lambda_of() {
            Some((args, body_type)) => {
                law_initializing_goes_on(pattern, args, body_type, c);
                function_initialized(pattern, args, body_type, c)->0
            },
            None => c,
        };
        let vs = visits_of(pattern);
        lemma_marking_gains(vs.len(), vs, c1);
        law_marking_pushes(vs.len(), vs, c1);
        let c2 = for_each_variable(pattern, c1, marking())->0;
        let own = level->0;
        let _ = A::rule(*expr, c2.at_level(own));
        let o1 = inferred::<A>(*expr, c2.at_level(own))->0;
        assert(goes_on(c2.at_level(own), o1.cache));
        let c3 = o1.cache.at_level(LetBindingLevel((own.0 - 1) as usize));
        law_binding_goes_on(pattern, o1.result.typ, Seq::empty(), false, c3);
        law_binding_keeps_variables(pattern, o1.result.typ, Seq::empty(), false, c3);
        let p = o.tree->Definition_pattern;
        assert(visits_of(p) == vs);
        law_gains_further(c, c1, c2);
        assert(gains(c2, o1.cache));
        law_gains_further(c, c2, o1.cache);
        assert(gains(o1.cache, o.cache));
        law_gains_further(c, o1.cache, o.cache);
        law_gains_further(c, o.cache, between);
        let start = between.at_level(previous);
        let finished = for_each_variable(p, start, unmarking(mutually_recursive));
        if let Some(c4) = finished {
            lemma_unmarking_gains(vs.len(), vs, start, mutually_recursive);
            lemma_unmarking_keeps_level(vs.len(), vs, start, mutually_recursive);
            law_marks_are_taken_off(pattern, c1, start, mutually_recursive);
            assert(gains(c, start));
            law_gains_further(c, start, c4);
            let end = c4.fresh(c4.current_level);
            lemma_fresh_goes_on(c4, c4.current_level);
            law_gains_further(c, c4, end);
        }
    }
}

/// Inferring the definition that a variable refers to only goes on, as long as that holds of
/// inferring its node between beginning and ending.
pub proof fn law_nested_definition_goes_on(
    id: DefinitionInfoId,
    kind: DefinitionKind,
    traits: Seq<Constraint>,
    mutually_recursive: bool,
    scope: ImplScopeId,
    callsite: VariableId,
    c: Cache,
    between: Cache,
)
    requires
        marks_itself(kind) ==> goes_on(c, between),
        !marks_itself(kind) ==> (in_progress(id, c) matches Some(c1) && goes_on(c1, between)),
    ensures
        nested_definition(
            id,
            kind,
            traits,
            mutually_recursive,
            scope,
            callsite,
            between,
        ) matches Some((_, _, end)) ==> goes_on(c, end),
{
    let nested = nested_definition(
        id,
        kind,
        traits,
        mutually_recursive,
        scope,
        callsite,
        between,
    );
    if let Some((_, _, end)) = nested {
        if marks_itself(kind) {
            assert(goes_on(between, end));
            law_goes_on_further(c, between, end);
        } else {
            let c1 = in_progress(id, c)->0;
            assert(gains(c, c1));
            law_gains_further(c, c1, between);
            assert(gains(between, end));
            law_gains_further(c, between, end);
            assert(c.call_stack.push(id).drop_last() =~= c.call_stack);
        }
    }
}

} // verus!
