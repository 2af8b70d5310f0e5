//! When two types accord in a cache: what unifying them once achieves for good, whatever else is
//! found out later.

use crate::agreement::{
    agree, agrees, committed, grows, hop, law_agreement_stays, law_unify_sound, lemma_commit_agrees,
    lemma_commit_hops, tag_fits,
};
use crate::bindings::bind_all;
use crate::cache::{Binding, Cache, Location, Reason};
use crate::effects::{
    effect_args, effect_id, effects_without, find_effect, flatten, lemma_find_effect,
};
use crate::occurs_laws::law_lowering_only_lowers;
use crate::progress::{gains, law_unification_goes_on, stay_bound};
use crate::resolve::{follow, MAX_DEPTH};
use crate::solve::{after_unify, fresh_unification};
use crate::types::{PrimitiveType, Ty, TypeVariableId};
use crate::unify::{
    fresh_row, succeeded, unify_common, unify_effects, unify_seq, unify_types, unify_variable,
    State, Step,
};
use crate::unify_laws::{
    is_proper, law_unify_keeps, lemma_keeps_fresh, lemma_unify_common_keeps, lemma_unify_seq_keeps,
    lemma_unify_variable_keeps,
};
use vstd::prelude::*;

verus! {

/// Whether no row of fields stands in the type, and all its variables are in the set.
pub open spec fn clean(t: Ty, k: Set<usize>) -> bool
    decreases t,
{
    match t {
        Ty::Variable(v) => k.contains(v.0),
        Ty::NamedGeneric(v, _) => k.contains(v.0),
        Ty::Function { parameters, return_type, environment, effects, has_varargs } => {
            &&& forall|i: int| 0 <= i < parameters.len() ==> clean(#[trigger] parameters[i], k)
            &&& clean(*return_type, k)
            &&& clean(*environment, k)
            &&& clean(*effects, k)
        },
        Ty::Application(constructor, args) => {
            &&& clean(*constructor, k)
            &&& forall|i: int| 0 <= i < args.len() ==> clean(#[trigger] args[i], k)
        },
        Ty::Ref { sharedness, mutability, lifetime } => {
            &&& clean(*sharedness, k)
            &&& clean(*mutability, k)
            &&& clean(*lifetime, k)
        },
        Ty::Struct(_, _, _) => false,
        Ty::Effect(_, args) => forall|i: int| 0 <= i < args.len() ==> clean(#[trigger] args[i], k),
        Ty::Effects(effects, extension) => {
            &&& forall|i: int| 0 <= i < effects.len() ==> clean(#[trigger] effects[i], k)
            &&& extension matches Some(v) ==> k.contains(v.0)
        },
        _ => true,
    }
}

/// Whether that holds of all the types.
pub open spec fn all_clean(ts: Seq<Ty>, k: Set<usize>) -> bool {
    forall|i: int| 0 <= i < ts.len() ==> clean(#[trigger] ts[i], k)
}

/// Whether no variable of the set is bound to a type in which a row of fields stands, or a variable
/// outside the set.
pub open spec fn is_island(k: Set<usize>, vars: Seq<Binding>) -> bool {
    forall|i: int|
        0 <= i < vars.len() && k.contains(i as usize) && (#[trigger] vars[i]) is Bound ==> clean(
            vars[i]->Bound_0,
            k,
        )
}

/// Whether no row of fields can be reached from the type, however far the bindings of the cache are
/// followed.
pub open spec fn fieldless(t: Ty, c: Cache) -> bool {
    exists|k: Set<usize>| #[trigger] is_island(k, c.type_bindings) && clean(t, k)
}

/// Whether no variable of the set stands for a type in which a row of fields stands, or a variable
/// outside the set. All variables that are still to be made are in it.
pub open spec fn quiet(k: Set<usize>, s: State) -> bool {
    &&& forall|id: TypeVariableId|
        k.contains(id.0) && ((#[trigger] s.binding_of(id)) matches Some(Binding::Bound(_)))
            ==> clean(s.binding_of(id)->0->Bound_0, k)
    &&& forall|x: usize| x >= s.cache.type_bindings.len() ==> k.contains(x)
    &&& s.solution.known_to(s.cache)
}

/// Whether the state fits in the machine.
pub open spec fn small(s: State) -> bool {
    s.cache.type_bindings.len() <= usize::MAX
}

/// Whether the step, if it came to an end, was regular and left no row of fields behind.
pub open spec fn step_quiet(k: Set<usize>, step: Option<Step>) -> bool {
    step matches Some(r) ==> (small(r.state) ==> r.manner.regular && quiet(k, r.state))
}

proof fn lemma_follow_clean(k: Set<usize>, depth: nat, t: Ty, s: State)
    requires
        clean(t, k),
        quiet(k, s),
    ensures
        follow(depth, t, s.solution.types, s.cache.type_bindings) matches Some(end) ==> clean(
            end,
            k,
        ),
    decreases depth,
{
    if depth > 0 {
        if let Ty::Variable(v) = t {
            if let Some(Binding::Bound(b)) = s.binding_of(v) {
                lemma_follow_clean(k, (depth - 1) as nat, b, s);
            }
        }
    }
}

proof fn lemma_rest_clean(k: Set<usize>, ts: Seq<Ty>)
    requires
        all_clean(ts, k),
        ts.len() > 0,
    ensures
        clean(ts[0], k),
        all_clean(ts.skip(1), k),
{
    assert forall|i: int| 0 <= i < ts.skip(1).len() implies clean(#[trigger] ts.skip(1)[i], k) by {
        assert(ts.skip(1)[i] == ts[i + 1]);
    }
}

proof fn lemma_insert_quiet(k: Set<usize>, s: State, id: TypeVariableId, t: Ty, r: State)
    requires
        quiet(k, s),
        clean(t, k),
        r.solution.types == s.solution.types.insert(id.0, t),
        r.solution.known_to(r.cache),
        r.cache == s.cache,
    ensures
        quiet(k, r),
{
    assert forall|v: TypeVariableId|
        k.contains(v.0) && ((#[trigger] r.binding_of(v)) matches Some(
            Binding::Bound(_),
        )) implies clean(r.binding_of(v)->0->Bound_0, k) by {
        let _ = s.binding_of(v);
    }
}

/// Types without rows of fields unify regularly, and no such row comes in.
pub proof fn lemma_unify_regular(k: Set<usize>, depth: nat, a: Ty, b: Ty, s: State)
    requires
        clean(a, k),
        clean(b, k),
        quiet(k, s),
    ensures
        step_quiet(k, unify_types(depth, a, b, s)),
    decreases depth, 0nat, 0nat,
{
    let step = unify_types(depth, a, b, s);
    law_unify_keeps(depth, a, b, s);
    if depth > 0 && step is Some && small(step->0.state) {
        let d = (depth - 1) as nat;
        match (a, b) {
            (Ty::Variable(id), _) => lemma_variable_regular(k, d, id, a, b, true, s),
            (_, Ty::Variable(id)) => lemma_variable_regular(k, d, id, b, a, false, s),
            (Ty::Function { .. }, Ty::Function { .. }) => {
                lemma_functions_regular(k, d, a, b, s);
            },
            (Ty::Application(c1, args1), Ty::Application(c2, args2)) => {
                let s1 = unify_types(d, *c1, *c2, s);
                law_unify_keeps(d, *c1, *c2, s);
                if succeeded(s1) {
                    lemma_unify_seq_keeps(d, args1, args2, s1->0.state);
                }
                lemma_unify_regular(k, d, *c1, *c2, s);
                if succeeded(s1) && args1.len() == args2.len() {
                    lemma_seq_regular(k, d, args1, args2, s1->0.state);
                }
            },
            (Ty::Ref { .. }, Ty::Ref { .. }) => lemma_refs_regular(k, d, a, b, s),
            (Ty::NamedGeneric(id1, _), _) => {
                match s.binding_of(id1) {
                    None => {},
                    Some(Binding::Bound(t)) => lemma_unify_regular(k, d, t, b, s),
                    Some(Binding::Unbound(_, _)) => {
                        if let Ty::NamedGeneric(id2, _) = b {
                            match s.binding_of(id2) {
                                Some(Binding::Bound(t)) => lemma_unify_regular(k, d, a, t, s),
                                _ => {
                                    if id1 != id2 && step->0.ok {
                                        lemma_insert_quiet(k, s, id1, b, step->0.state);
                                    }
                                },
                            }
                        }
                    },
                }
            },
            (_, Ty::NamedGeneric(id2, _)) => {
                if let Some(Binding::Bound(t)) = s.binding_of(id2) {
                    lemma_unify_regular(k, d, a, t, s);
                }
            },
            (Ty::Effects(effects1, extension1), Ty::Effects(effects2, extension2)) => {
                lemma_effects_regular(k, d, effects1, extension1, effects2, extension2, s);
            },
            _ => {},
        }
    }
}

proof fn lemma_functions_regular(k: Set<usize>, d: nat, a: Ty, b: Ty, s: State)
    requires
        clean(a, k),
        clean(b, k),
        a is Function,
        b is Function,
        quiet(k, s),
    ensures
        step_quiet(k, unify_types(d + 1, a, b, s)),
    decreases d, 4nat, 0nat,
{
    let step = unify_types(d + 1, a, b, s);
    if step is Some && small(step->0.state) {
        let (xs, ys) = (a->parameters, b->parameters);
        let (result1, result2) = (*a->return_type, *b->return_type);
        let (environment1, environment2) = (*a->environment, *b->environment);
        let (effects1, effects2) = (*a->Function_effects, *b->Function_effects);
        let s1 = unify_seq(d, xs, ys, s);
        lemma_unify_seq_keeps(d, xs, ys, s);
        lemma_seq_regular(k, d, xs, ys, s);
        if succeeded(s1) {
            let t1 = s1->0.state;
            let s2 = unify_types(d, result2, result1, t1);
            law_unify_keeps(d, result2, result1, t1);
            if succeeded(s2) {
                let t2 = s2->0.state;
                let s3 = unify_types(d, environment1, environment2, t2);
                law_unify_keeps(d, environment1, environment2, t2);
                if succeeded(s3) {
                    let t3 = s3->0.state;
                    law_unify_keeps(d, effects1, effects2, t3);
                }
            }
            if small(t1) {
                lemma_unify_regular(k, d, result2, result1, t1);
                if succeeded(s2) && small(s2->0.state) {
                    let t2 = s2->0.state;
                    let s3 = unify_types(d, environment1, environment2, t2);
                    lemma_unify_regular(k, d, environment1, environment2, t2);
                    if succeeded(s3) && small(s3->0.state) {
                        lemma_unify_regular(k, d, effects1, effects2, s3->0.state);
                    }
                }
            }
        }
    }
}

/// Where two functions unify, each step in between is quiet.
pub proof fn lemma_functions_quiet(k: Set<usize>, d: nat, a: Ty, b: Ty, s: State)
    requires
        clean(a, k),
        clean(b, k),
        a is Function,
        b is Function,
        quiet(k, s),
        succeeded(unify_types(d + 1, a, b, s)),
        small(unify_types(d + 1, a, b, s)->0.state),
    ensures
        ({
            let t1 = unify_seq(d, a->parameters, b->parameters, s)->0.state;
            let t2 = unify_types(d, *b->return_type, *a->return_type, t1)->0.state;
            let s3 = unify_types(d, *a->environment, *b->environment, t2);
            let s4 = unify_types(d, *a->Function_effects, *b->Function_effects, s3->0.state);
            &&& quiet(k, s3->0.state)
            &&& succeeded(s4)
            &&& s4->0.state == unify_types(d + 1, a, b, s)->0.state
        }),
{
    let (xs, ys) = (a->parameters, b->parameters);
    let (result1, result2) = (*a->return_type, *b->return_type);
    let (environment1, environment2) = (*a->environment, *b->environment);
    let (effects1, effects2) = (*a->Function_effects, *b->Function_effects);
    let t1 = unify_seq(d, xs, ys, s)->0.state;
    let t2 = unify_types(d, result2, result1, t1)->0.state;
    let t3 = unify_types(d, environment1, environment2, t2)->0.state;
    lemma_unify_seq_keeps(d, xs, ys, s);
    law_unify_keeps(d, result2, result1, t1);
    law_unify_keeps(d, environment1, environment2, t2);
    law_unify_keeps(d, effects1, effects2, t3);
    lemma_seq_regular(k, d, xs, ys, s);
    lemma_unify_regular(k, d, result2, result1, t1);
    lemma_unify_regular(k, d, environment1, environment2, t2);
}

proof fn lemma_refs_regular(k: Set<usize>, d: nat, a: Ty, b: Ty, s: State)
    requires
        clean(a, k),
        clean(b, k),
        a is Ref,
        b is Ref,
        quiet(k, s),
    ensures
        step_quiet(k, unify_types(d + 1, a, b, s)),
    decreases d, 4nat, 0nat,
{
    let step = unify_types(d + 1, a, b, s);
    if step is Some && small(step->0.state) {
        let (x1, x2) = (*a->sharedness, *b->sharedness);
        let (y1, y2) = (*a->mutability, *b->mutability);
        let (z1, z2) = (*a->lifetime, *b->lifetime);
        let s1 = unify_types(d, x1, x2, s);
        law_unify_keeps(d, x1, x2, s);
        lemma_unify_regular(k, d, x1, x2, s);
        if succeeded(s1) {
            let t1 = s1->0.state;
            let s2 = unify_types(d, y1, y2, t1);
            law_unify_keeps(d, y1, y2, t1);
            if succeeded(s2) {
                law_unify_keeps(d, z1, z2, s2->0.state);
            }
            if small(t1) {
                lemma_unify_regular(k, d, y1, y2, t1);
                if succeeded(s2) && small(s2->0.state) {
                    lemma_unify_regular(k, d, z1, z2, s2->0.state);
                }
            }
        }
    }
}

pub proof fn lemma_seq_regular(k: Set<usize>, depth: nat, xs: Seq<Ty>, ys: Seq<Ty>, s: State)
    requires
        all_clean(xs, k),
        all_clean(ys, k),
        quiet(k, s),
    ensures
        step_quiet(k, unify_seq(depth, xs, ys, s)),
    decreases depth, 1nat, xs.len(),
{
    let step = unify_seq(depth, xs, ys, s);
    if xs.len() > 0 && ys.len() > 0 && step is Some && small(step->0.state) {
        lemma_rest_clean(k, xs);
        lemma_rest_clean(k, ys);
        law_unify_keeps(depth, xs[0], ys[0], s);
        lemma_unify_regular(k, depth, xs[0], ys[0], s);
        let first = unify_types(depth, xs[0], ys[0], s);
        if succeeded(first) {
            lemma_unify_seq_keeps(depth, xs.skip(1), ys.skip(1), first->0.state);
            lemma_seq_regular(k, depth, xs.skip(1), ys.skip(1), first->0.state);
        }
    }
}

pub proof fn lemma_variable_regular(
    k: Set<usize>,
    depth: nat,
    id: TypeVariableId,
    a: Ty,
    b: Ty,
    on_lhs: bool,
    s: State,
)
    requires
        clean(b, k),
        k.contains(id.0),
        quiet(k, s),
    ensures
        step_quiet(k, unify_variable(depth, id, a, b, on_lhs, s)),
    decreases depth, 1nat, 0nat,
{
    let step = unify_variable(depth, id, a, b, on_lhs, s);
    lemma_unify_variable_keeps(depth, id, a, b, on_lhs, s);
    match s.binding_of(id) {
        None => {},
        Some(Binding::Bound(t)) => {
            if on_lhs {
                lemma_unify_regular(k, depth, t, b, s);
            } else {
                lemma_unify_regular(k, depth, b, t, s);
            }
        },
        Some(Binding::Unbound(_, _)) => {
            lemma_follow_clean(k, MAX_DEPTH as nat, b, s);
            let types = s.solution.types;
            if let Some(end) = follow(MAX_DEPTH as nat, b, types, s.cache.type_bindings) {
                if a != end && succeeded(step) {
                    lemma_insert_quiet(k, s, id, end, step->0.state);
                }
            }
        },
    }
}

pub proof fn lemma_common_regular(
    k: Set<usize>,
    depth: nat,
    effects: Seq<Ty>,
    others: Seq<Ty>,
    s: State,
)
    requires
        all_clean(effects, k),
        all_clean(others, k),
        quiet(k, s),
    ensures
        step_quiet(k, unify_common(depth, effects, others, s)),
    decreases depth, 2nat, effects.len(),
{
    let step = unify_common(depth, effects, others, s);
    if effects.len() > 0 && step is Some && small(step->0.state) {
        lemma_rest_clean(k, effects);
        lemma_find_effect(others, effect_id(effects[0]));
        match find_effect(others, effect_id(effects[0])) {
            None => lemma_common_regular(k, depth, effects.skip(1), others, s),
            Some(i) => {
                let xs = effect_args(effects[0]);
                let ys = effect_args(others[i]);
                assert(clean(others[i], k));
                lemma_unify_seq_keeps(depth, xs, ys, s);
                lemma_seq_regular(k, depth, xs, ys, s);
                let first = unify_seq(depth, xs, ys, s);
                if succeeded(first) {
                    lemma_unify_common_keeps(depth, effects.skip(1), others, first->0.state);
                    if xs.len() == ys.len() {
                        lemma_common_regular(k, depth, effects.skip(1), others, first->0.state);
                    }
                }
            },
        }
    }
}

proof fn lemma_joined_clean(k: Set<usize>, a: Seq<Ty>, b: Seq<Ty>)
    requires
        all_clean(a, k),
        all_clean(b, k),
    ensures
        all_clean(a + b, k),
{
    assert forall|i: int| 0 <= i < (a + b).len() implies clean(#[trigger] (a + b)[i], k) by {
        if i < a.len() {
            assert((a + b)[i] == a[i]);
        } else {
            assert((a + b)[i] == b[i - a.len()]);
        }
    }
}

pub proof fn lemma_flatten_clean(
    k: Set<usize>,
    depth: nat,
    effects: Seq<Ty>,
    extension: Option<TypeVariableId>,
    s: State,
)
    requires
        all_clean(effects, k),
        extension matches Some(v) ==> k.contains(v.0),
        quiet(k, s),
    ensures
        flatten(depth, effects, extension, s.solution.types, s.cache.type_bindings) matches Some(
            (xs, end),
        ) ==> all_clean(xs, k) && (end matches Some(v) ==> k.contains(v.0)),
    decreases depth,
{
    if depth > 0 {
        if let Some(id) = extension {
            let d = (depth - 1) as nat;
            if let Some(Binding::Bound(b)) = s.binding_of(id) {
                match b {
                    Ty::Variable(v) => lemma_flatten_clean(k, d, effects, Some(v), s),
                    Ty::NamedGeneric(v, _) => lemma_flatten_clean(k, d, effects, Some(v), s),
                    Ty::Effects(more, end) => {
                        lemma_joined_clean(k, effects, more);
                        lemma_flatten_clean(k, d, effects + more, end, s);
                    },
                    _ => {},
                }
            }
        }
    }
}

pub proof fn lemma_without_clean(k: Set<usize>, effects: Seq<Ty>, others: Seq<Ty>)
    requires
        all_clean(effects, k),
    ensures
        all_clean(effects_without(effects, others), k),
    decreases effects.len(),
{
    if effects.len() > 0 {
        let front = effects.drop_last();
        assert forall|i: int| 0 <= i < front.len() implies clean(#[trigger] front[i], k) by {
            assert(front[i] == effects[i]);
        }
        lemma_without_clean(k, front, others);
        assert(clean(effects[effects.len() - 1], k));
    }
}

/// A fresh variable for the end of two rows keeps a state quiet.
pub proof fn lemma_fresh_quiet(k: Set<usize>, s: State, x: TypeVariableId, y: TypeVariableId)
    requires
        quiet(k, s),
        fresh_row(s.cache, x, y) is Some,
        s.cache.type_bindings.len() < usize::MAX,
    ensures
        quiet(k, State { solution: s.solution, cache: fresh_row(s.cache, x, y)->0 }),
        k.contains(s.cache.next_id().0),
{
    let r = State { solution: s.solution, cache: fresh_row(s.cache, x, y)->0 };
    assert forall|v: TypeVariableId|
        k.contains(v.0) && ((#[trigger] r.binding_of(v)) matches Some(
            Binding::Bound(_),
        )) implies clean(r.binding_of(v)->0->Bound_0, k) by {
        if v.0 < s.cache.type_bindings.len() {
            assert(r.cache.type_bindings[v.0 as int] == s.cache.type_bindings[v.0 as int]);
            assert(r.binding_of(v) == s.binding_of(v));
        } else {
            assert(!s.solution.types.contains_key(v.0));
        }
    }
}

pub proof fn lemma_effects_regular(
    k: Set<usize>,
    depth: nat,
    effects1: Seq<Ty>,
    extension1: Option<TypeVariableId>,
    effects2: Seq<Ty>,
    extension2: Option<TypeVariableId>,
    s: State,
)
    requires
        all_clean(effects1, k),
        extension1 matches Some(v) ==> k.contains(v.0),
        all_clean(effects2, k),
        extension2 matches Some(v) ==> k.contains(v.0),
        quiet(k, s),
    ensures
        step_quiet(k, unify_effects(depth, effects1, extension1, effects2, extension2, s)),
    decreases depth, 3nat, 0nat,
{
    let step = unify_effects(depth, effects1, extension1, effects2, extension2, s);
    let types = s.solution.types;
    let vars = s.cache.type_bindings;
    let flat1 = flatten(MAX_DEPTH as nat, effects1, extension1, types, vars);
    let flat2 = flatten(MAX_DEPTH as nat, effects2, extension2, types, vars);
    lemma_flatten_clean(k, MAX_DEPTH as nat, effects1, extension1, s);
    lemma_flatten_clean(k, MAX_DEPTH as nat, effects2, extension2, s);
    if flat1 is Some && flat2 is Some && step is Some && small(step->0.state) {
        let (xs, end1) = flat1->0;
        let (ys, end2) = flat2->0;
        lemma_unify_common_keeps(depth, xs, ys, s);
        lemma_common_regular(k, depth, xs, ys, s);
        let first = unify_common(depth, xs, ys, s);
        if succeeded(first) {
            let s1 = first->0.state;
            let only1 = effects_without(xs, ys);
            let only2 = effects_without(ys, xs);
            lemma_without_clean(k, xs, ys);
            lemma_without_clean(k, ys, xs);
            match (end1, end2) {
                (None, None) => {},
                (Some(x), None) => {
                    let t = Ty::Effects(only2, None);
                    lemma_unify_variable_keeps(depth, x, Ty::Variable(x), t, true, s1);
                    if only1.len() == 0 {
                        lemma_variable_regular(k, depth, x, Ty::Variable(x), t, true, s1);
                    }
                },
                (None, Some(y)) => {
                    let t = Ty::Effects(only1, None);
                    lemma_unify_variable_keeps(depth, y, Ty::Variable(y), t, true, s1);
                    if only2.len() == 0 {
                        lemma_variable_regular(k, depth, y, Ty::Variable(y), t, true, s1);
                    }
                },
                (Some(x), Some(y)) => {
                    let end = Ty::Variable(y);
                    if only1.len() == 0 && only2.len() == 0 {
                        lemma_unify_variable_keeps(depth, x, Ty::Variable(x), end, true, s1);
                        lemma_variable_regular(k, depth, x, Ty::Variable(x), end, true, s1);
                    } else if x != y && fresh_row(s1.cache, x, y) is Some {
                        let c = fresh_row(s1.cache, x, y)->0;
                        let z = s1.cache.next_id();
                        let s2 = State { solution: s1.solution, cache: c };
                        lemma_keeps_fresh(s1, x, y);
                        let t1 = Ty::Effects(only2, Some(z));
                        let t2 = Ty::Effects(only1, Some(z));
                        lemma_unify_variable_keeps(depth, x, Ty::Variable(x), t1, true, s2);
                        let second = unify_variable(depth, x, Ty::Variable(x), t1, true, s2);
                        if succeeded(second) {
                            let s3 = second->0.state;
                            lemma_unify_variable_keeps(depth, y, Ty::Variable(y), t2, true, s3);
                            lemma_fresh_quiet(k, s1, x, y);
                            lemma_variable_regular(k, depth, x, Ty::Variable(x), t1, true, s2);
                            lemma_variable_regular(k, depth, y, Ty::Variable(y), t2, true, s3);
                        } else if second is Some {
                            lemma_fresh_quiet(k, s1, x, y);
                            lemma_variable_regular(k, depth, x, Ty::Variable(x), t1, true, s2);
                        }
                    }
                },
            }
        }
    }
}

/// What holds no variable outside a set holds none outside a larger one.
pub proof fn lemma_clean_in_larger(t: Ty, k: Set<usize>, m: Set<usize>)
    requires
        clean(t, k),
        k.subset_of(m),
    ensures
        clean(t, m),
    decreases t,
{
    match t {
        Ty::Function { parameters, return_type, environment, effects, .. } => {
            assert forall|i: int| 0 <= i < parameters.len() implies clean(
                #[trigger] parameters[i],
                m,
            ) by {
                lemma_clean_in_larger(parameters[i], k, m);
            }
            lemma_clean_in_larger(*return_type, k, m);
            lemma_clean_in_larger(*environment, k, m);
            lemma_clean_in_larger(*effects, k, m);
        },
        Ty::Application(constructor, args) => {
            lemma_clean_in_larger(*constructor, k, m);
            assert forall|i: int| 0 <= i < args.len() implies clean(#[trigger] args[i], m) by {
                lemma_clean_in_larger(args[i], k, m);
            }
        },
        Ty::Ref { sharedness, mutability, lifetime } => {
            lemma_clean_in_larger(*sharedness, k, m);
            lemma_clean_in_larger(*mutability, k, m);
            lemma_clean_in_larger(*lifetime, k, m);
        },
        Ty::Effect(_, args) => {
            assert forall|i: int| 0 <= i < args.len() implies clean(#[trigger] args[i], m) by {
                lemma_clean_in_larger(args[i], k, m);
            }
        },
        Ty::Effects(effects, _) => {
            assert forall|i: int| 0 <= i < effects.len() implies clean(
                #[trigger] effects[i],
                m,
            ) by {
                lemma_clean_in_larger(effects[i], k, m);
            }
        },
        _ => {},
    }
}

/// Two islands are one.
pub proof fn lemma_islands_join(k: Set<usize>, m: Set<usize>, vars: Seq<Binding>)
    requires
        is_island(k, vars),
        is_island(m, vars),
        vars.len() <= usize::MAX,
    ensures
        is_island(k.union(m), vars),
{
    let all = k.union(m);
    assert forall|i: int|
        0 <= i < vars.len() && all.contains(i as usize) && (
        #[trigger] vars[i]) is Bound implies clean(vars[i]->Bound_0, all) by {
        if k.contains(i as usize) {
            lemma_clean_in_larger(vars[i]->Bound_0, k, all);
        } else {
            lemma_clean_in_larger(vars[i]->Bound_0, m, all);
        }
    }
}

/// An island of a later cache is quiet in an earlier one, with all variables from one on that are
/// not bound yet.
pub proof fn lemma_island_is_quiet(k: Set<usize>, n: nat, c: Cache, end: Cache) -> (all: Set<usize>)
    requires
        is_island(k, end.type_bindings),
        stay_bound(c.type_bindings, end.type_bindings),
        n <= c.type_bindings.len() <= end.type_bindings.len() <= usize::MAX,
        forall|i: int|
            n <= i < c.type_bindings.len() ==> (#[trigger] c.type_bindings[i]) is Unbound,
    ensures
        quiet(all, committed(c)),
        k.subset_of(all),
        forall|x: usize| x >= n ==> all.contains(x),
{
    let all = Set::new(|x: usize| k.contains(x) || x >= n);
    let s = committed(c);
    assert forall|v: TypeVariableId|
        all.contains(v.0) && ((#[trigger] s.binding_of(v)) matches Some(
            Binding::Bound(_),
        )) implies clean(s.binding_of(v)->0->Bound_0, all) by {
        assert(c.type_bindings[v.0 as int] is Bound);
        assert(end.type_bindings[v.0 as int] == c.type_bindings[v.0 as int]);
        lemma_clean_in_larger(s.binding_of(v)->0->Bound_0, k, all);
    }
    all
}

/// Two quiet sets are one.
pub proof fn lemma_quiet_join(k: Set<usize>, m: Set<usize>, s: State)
    requires
        quiet(k, s),
        quiet(m, s),
    ensures
        quiet(k.union(m), s),
{
    let all = k.union(m);
    assert forall|v: TypeVariableId|
        all.contains(v.0) && ((#[trigger] s.binding_of(v)) matches Some(
            Binding::Bound(_),
        )) implies clean(s.binding_of(v)->0->Bound_0, all) by {
        if k.contains(v.0) {
            lemma_clean_in_larger(s.binding_of(v)->0->Bound_0, k, all);
        } else {
            lemma_clean_in_larger(s.binding_of(v)->0->Bound_0, m, all);
        }
    }
}

/// What a variable stands for, or a named generic.
pub open spec fn stands_for(t: Ty, s: State) -> Option<Ty> {
    match t {
        Ty::Variable(id) | Ty::NamedGeneric(id, _) => match s.binding_of(id) {
            Some(Binding::Bound(b)) => Some(b),
            _ => None,
        },
        _ => None,
    }
}

/// The type that stands for nothing else, where at most `k` bindings lead to one.
pub open spec fn head(k: nat, t: Ty, s: State) -> Option<Ty>
    decreases k,
{
    match stands_for(t, s) {
        None => Some(t),
        Some(t1) => if k == 0 {
            None
        } else {
            head((k - 1) as nat, t1, s)
        },
    }
}

/// Whether two types that stand for nothing else begin alike: the same variable, the same
/// primitive or user-defined type, functions of as many parameters, and so on. Nothing is said of
/// rows of fields.
pub open spec fn begin_alike(a: Ty, b: Ty) -> bool {
    match (a, b) {
        (Ty::Struct(_, _, _), _) => true,
        (_, Ty::Struct(_, _, _)) => true,
        (Ty::Primitive(p), Ty::Primitive(q)) => p == q,
        (Ty::UserDefined(p), Ty::UserDefined(q)) => p == q,
        (Ty::Variable(x), Ty::Variable(y)) => x == y,
        (Ty::NamedGeneric(x, _), Ty::NamedGeneric(y, _)) => x == y,
        (Ty::Tag(x), Ty::Tag(y)) => tag_fits(x, y) || tag_fits(y, x),
        (
            Ty::Function { parameters, has_varargs, .. },
            Ty::Function { parameters: parameters2, has_varargs: has_varargs2, .. },
        ) => parameters.len() == parameters2.len() || (has_varargs && parameters2.len()
            >= parameters.len()) || (has_varargs2 && parameters.len() >= parameters2.len()),
        (Ty::Application(_, args1), Ty::Application(_, args2)) => args1.len() == args2.len(),
        (Ty::Ref { .. }, Ty::Ref { .. }) => true,
        (Ty::Effects(_, _), Ty::Effects(_, _)) => true,
        (Ty::Effect(_, _), Ty::Effect(_, _)) => true,
        _ => false,
    }
}

/// Whether what the types stand for begins alike.
pub open spec fn heads_fit(a: Ty, b: Ty, s: State) -> bool {
    forall|i: nat, j: nat|
        (#[trigger] head(i, a, s)) is Some && (#[trigger] head(j, b, s)) is Some ==> begin_alike(
            head(i, a, s)->0,
            head(j, b, s)->0,
        )
}

pub proof fn lemma_head_is_one(i: nat, j: nat, t: Ty, s: State)
    requires
        head(i, t, s) is Some,
        head(j, t, s) is Some,
    ensures
        head(i, t, s) == head(j, t, s),
    decreases i,
{
    if let Some(t1) = stands_for(t, s) {
        lemma_head_is_one((i - 1) as nat, (j - 1) as nat, t1, s);
    }
}

/// Types with one head begin alike.
proof fn lemma_same_head(a: Ty, b: Ty, end: Ty, s: State)
    requires
        forall|i: nat|
            (#[trigger] head(i, a, s)) is Some ==> exists|k: nat| #[trigger]
                head(k, end, s) == head(i, a, s),
        forall|j: nat|
            (#[trigger] head(j, b, s)) is Some ==> exists|k: nat| #[trigger]
                head(k, end, s) == head(j, b, s),
    ensures
        heads_fit(a, b, s),
        heads_fit(b, a, s),
{
    assert forall|i: nat, j: nat|
        (#[trigger] head(i, a, s)) is Some && (#[trigger] head(j, b, s)) is Some implies head(
        i,
        a,
        s,
    ) == head(j, b, s) by {
        let k = choose|k: nat| #[trigger] head(k, end, s) == head(i, a, s);
        let m = choose|m: nat| #[trigger] head(m, end, s) == head(j, b, s);
        lemma_head_is_one(k, m, end, s);
    }
}

/// Whatever a chain of bindings leads to has the head of where it starts.
proof fn lemma_follow_head(depth: nat, t: Ty, s: State, r: State, i: nat) -> (k: nat)
    requires
        grows(s, r),
        follow(depth, t, s.solution.types, s.cache.type_bindings) is Some,
        head(i, t, r) is Some,
    ensures
        head(
            k,
            follow(depth, t, s.solution.types, s.cache.type_bindings)->0,
            r,
        ) == head(i, t, r),
    decreases depth,
{
    match t {
        Ty::Variable(v) => match s.binding_of(v) {
            Some(Binding::Bound(b)) => {
                assert(r.binding_of(v) == s.binding_of(v));
                lemma_follow_head((depth - 1) as nat, b, s, r, (i - 1) as nat)
            },
            _ => i,
        },
        _ => i,
    }
}

/// A state keeps the bindings of the cache it started from.
pub proof fn lemma_keeps_grow(c: Cache, r: State)
    requires
        is_proper(r),
        c.type_bindings.len() <= r.cache.type_bindings.len(),
        forall|i: int|
            0 <= i < c.type_bindings.len() ==> #[trigger] r.cache.type_bindings[i]
                == c.type_bindings[i],
    ensures
        grows(committed(c), r),
{
    assert forall|id: TypeVariableId|
        #![trigger committed(c).binding_of(id)]
        committed(c).binding_of(id) matches Some(Binding::Bound(_)) implies r.binding_of(id)
        == committed(c).binding_of(id) by {
        assert(r.cache.type_bindings[id.0 as int] == c.type_bindings[id.0 as int]);
    }
}

/// Types that unify begin alike, whatever stands in them.
pub proof fn lemma_unified_heads(depth: nat, a: Ty, b: Ty, c: Cache)
    requires
        succeeded(unify_types(depth, a, b, committed(c))),
    ensures
        heads_fit(a, b, unify_types(depth, a, b, committed(c))->0.state),
    decreases depth,
{
    let s = committed(c);
    let d = (depth - 1) as nat;
    let r = unify_types(depth, a, b, s)->0.state;
    law_unify_keeps(depth, a, b, s);
    assert(is_proper(s));
    lemma_keeps_grow(c, r);
    match (a, b) {
        (Ty::Variable(id), _) => {
            assert(unify_types(depth, a, b, s) == unify_variable(d, id, a, b, true, s));
            match s.binding_of(id) {
                Some(Binding::Bound(t)) => {
                    lemma_unified_heads(d, t, b, c);
                    assert(r.binding_of(id) == s.binding_of(id));
                    lemma_heads_from(a, b, t, r);
                },
                _ => lemma_bound_heads(id, a, b, s, r),
            }
        },
        (_, Ty::Variable(id)) => {
            assert(unify_types(depth, a, b, s) == unify_variable(d, id, b, a, false, s));
            match s.binding_of(id) {
                Some(Binding::Bound(t)) => {
                    lemma_unified_heads(d, a, t, c);
                    assert(r.binding_of(id) == s.binding_of(id));
                    lemma_heads_to(a, b, t, r);
                },
                _ => lemma_bound_heads(id, b, a, s, r),
            }
        },
        (Ty::Struct(_, _, _), _) => {},
        (_, Ty::Struct(_, _, _)) => {},
        (Ty::NamedGeneric(id1, _), _) => match s.binding_of(id1) {
            Some(Binding::Bound(t)) => {
                lemma_unified_heads(d, t, b, c);
                assert(r.binding_of(id1) == s.binding_of(id1));
                lemma_heads_from(a, b, t, r);
            },
            _ => {
                if let Ty::NamedGeneric(id2, _) = b {
                    match s.binding_of(id2) {
                        Some(Binding::Bound(t)) => {
                            lemma_unified_heads(d, a, t, c);
                            assert(r.binding_of(id2) == s.binding_of(id2));
                            lemma_heads_to(a, b, t, r);
                        },
                        _ => {
                            if id1 != id2 {
                                assert(stands_for(a, r) == Some(b));
                                assert forall|i: nat| (#[trigger] head(i, a, r)) is Some implies
                                    exists|k: nat| #[trigger] head(k, b, r) == head(i, a, r) by {
                                    assert(head((i - 1) as nat, b, r) == head(i, a, r));
                                }
                                lemma_same_head(a, b, b, r);
                            }
                        },
                    }
                }
            },
        },
        (_, Ty::NamedGeneric(id2, _)) => match s.binding_of(id2) {
            Some(Binding::Bound(t)) => {
                lemma_unified_heads(d, a, t, c);
                assert(r.binding_of(id2) == s.binding_of(id2));
                lemma_heads_to(a, b, t, r);
            },
            _ => {},
        },
        _ => {},
    }
}

proof fn lemma_heads_from(a: Ty, b: Ty, t: Ty, r: State)
    requires
        stands_for(a, r) == Some(t),
        heads_fit(t, b, r),
    ensures
        heads_fit(a, b, r),
{
    assert forall|i: nat, j: nat|
        (#[trigger] head(i, a, r)) is Some && (#[trigger] head(j, b, r)) is Some implies
        begin_alike(head(i, a, r)->0, head(j, b, r)->0) by {
        assert(head((i - 1) as nat, t, r) == head(i, a, r));
    }
}

proof fn lemma_heads_to(a: Ty, b: Ty, t: Ty, r: State)
    requires
        stands_for(b, r) == Some(t),
        heads_fit(a, t, r),
    ensures
        heads_fit(a, b, r),
{
    assert forall|i: nat, j: nat|
        (#[trigger] head(i, a, r)) is Some && (#[trigger] head(j, b, r)) is Some implies
        begin_alike(head(i, a, r)->0, head(j, b, r)->0) by {
        assert(head((j - 1) as nat, t, r) == head(j, b, r));
    }
}

/// A variable that was bound to what a type stands for has the head of the type.
proof fn lemma_bound_heads(id: TypeVariableId, a: Ty, b: Ty, s: State, r: State)
    requires
        a == Ty::Variable(id),
        grows(s, r),
        follow(MAX_DEPTH as nat, b, s.solution.types, s.cache.type_bindings) matches Some(end) && (
        end == a || stands_for(a, r) == Some(end)),
    ensures
        heads_fit(a, b, r),
        heads_fit(b, a, r),
{
    let end = follow(MAX_DEPTH as nat, b, s.solution.types, s.cache.type_bindings)->0;
    assert forall|j: nat| (#[trigger] head(j, b, r)) is Some implies exists|k: nat| #[trigger]
        head(k, end, r) == head(j, b, r) by {
        let k = lemma_follow_head(MAX_DEPTH as nat, b, s, r, j);
        assert(head(k, end, r) == head(j, b, r));
    }
    assert forall|i: nat| (#[trigger] head(i, a, r)) is Some implies exists|k: nat| #[trigger]
        head(k, end, r) == head(i, a, r) by {
        if end == a {
            assert(head(i, end, r) == head(i, a, r));
        } else {
            assert(head((i - 1) as nat, end, r) == head(i, a, r));
        }
    }
    lemma_same_head(a, b, end, r);
}

/// The head of a type is reached from where its chain of bindings ended before.
pub proof fn lemma_head_further(i: nat, t: Ty, s: State, r: State) -> (k: nat)
    requires
        grows(s, r),
        head(i, t, r) is Some,
    ensures
        head(i, t, s) is Some,
        head(k, head(i, t, s)->0, r) == head(i, t, r),
    decreases i,
{
    match stands_for(t, s) {
        None => i,
        Some(t1) => {
            assert(stands_for(t, r) == Some(t1));
            lemma_head_further((i - 1) as nat, t1, s, r)
        },
    }
}

/// Types that begin alike still do when more variables are bound.
pub proof fn law_heads_stay(a: Ty, b: Ty, s: State, r: State)
    requires
        heads_fit(a, b, s),
        grows(s, r),
    ensures
        heads_fit(a, b, r),
{
    assert forall|i: nat, j: nat|
        (#[trigger] head(i, a, r)) is Some && (#[trigger] head(j, b, r)) is Some implies
        begin_alike(head(i, a, r)->0, head(j, b, r)->0) by {
        let k = lemma_head_further(i, a, s, r);
        let m = lemma_head_further(j, b, s, r);
        let x = head(i, a, s)->0;
        let y = head(j, b, s)->0;
        assert(begin_alike(x, y));
        match (x, y) {
            (Ty::Variable(_), Ty::Variable(_)) => lemma_head_is_one(k, m, x, r),
            (Ty::NamedGeneric(v, _), Ty::NamedGeneric(_, _)) => {
                if let Some(t) = stands_for(x, r) {
                    lemma_head_is_one((k - 1) as nat, (m - 1) as nat, t, r);
                }
            },
            _ => {},
        }
    }
}

pub proof fn lemma_commit_head(i: nat, t: Ty, s: State)
    requires
        is_proper(s),
        s.solution.known_to(s.cache),
        s.cache.type_bindings.len() <= usize::MAX,
    ensures
        head(i, t, committed(s.cache.perform(s.solution))) == head(i, t, s),
    decreases i,
{
    lemma_commit_hops(s, t);
    if let Some(t1) = stands_for(t, s) {
        if i > 0 {
            lemma_commit_head((i - 1) as nat, t1, s);
        }
    }
}

/// Whether the types accord in the cache: what they stand for begins alike, and where no row of
/// fields is involved, no difference between them ever shows.
pub open spec fn accord(a: Ty, b: Ty, c: Cache) -> bool {
    &&& heads_fit(a, b, committed(c))
    &&& fieldless(a, c) && fieldless(b, c) ==> agree(false, a, b, committed(c))
}

/// Bindings that stay are bindings of the later cache.
pub proof fn lemma_stay_grow(c: Cache, end: Cache)
    requires
        stay_bound(c.type_bindings, end.type_bindings),
        c.type_bindings.len() <= end.type_bindings.len(),
    ensures
        grows(committed(c), committed(end)),
{
    assert forall|id: TypeVariableId|
        #![trigger committed(c).binding_of(id)]
        committed(c).binding_of(id) matches Some(Binding::Bound(_)) implies committed(
        end,
    ).binding_of(id) == committed(c).binding_of(id) by {
        assert(c.type_bindings[id.0 as int] is Bound);
        assert(end.type_bindings[id.0 as int] == c.type_bindings[id.0 as int]);
    }
}

/// What no row of fields can be reached from later, none could be reached from before.
pub proof fn lemma_earlier_fieldless(t: Ty, c: Cache, end: Cache)
    requires
        fieldless(t, end),
        stay_bound(c.type_bindings, end.type_bindings),
        c.type_bindings.len() <= end.type_bindings.len(),
    ensures
        fieldless(t, c),
{
    let k = choose|k: Set<usize>| #[trigger] is_island(k, end.type_bindings) && clean(t, k);
    assert forall|i: int|
        0 <= i < c.type_bindings.len() && k.contains(i as usize) && (
        #[trigger] c.type_bindings[i]) is Bound implies clean(c.type_bindings[i]->Bound_0, k) by {
        assert(end.type_bindings[i] == c.type_bindings[i]);
    }
    assert(is_island(k, c.type_bindings));
}

/// Two types from which no row of fields can be reached are clean in one set, which is quiet in
/// every earlier cache.
pub proof fn lemma_both_clean(a: Ty, b: Ty, c: Cache, end: Cache) -> (all: Set<usize>)
    requires
        fieldless(a, end),
        fieldless(b, end),
        stay_bound(c.type_bindings, end.type_bindings),
        c.type_bindings.len() <= end.type_bindings.len() <= usize::MAX,
    ensures
        quiet(all, committed(c)),
        clean(a, all),
        clean(b, all),
{
    let k = choose|k: Set<usize>| #[trigger] is_island(k, end.type_bindings) && clean(a, k);
    let m = choose|m: Set<usize>| #[trigger] is_island(m, end.type_bindings) && clean(b, m);
    lemma_islands_join(k, m, end.type_bindings);
    let all = lemma_island_is_quiet(k.union(m), c.type_bindings.len(), c, end);
    lemma_clean_in_larger(a, k, all);
    lemma_clean_in_larger(b, m, all);
    all
}

/// What stays bound from one to the next stays bound.
pub proof fn lemma_stay_further(a: Seq<Binding>, b: Seq<Binding>, c: Seq<Binding>)
    requires
        stay_bound(a, b),
        stay_bound(b, c),
        a.len() <= b.len() <= c.len(),
    ensures
        stay_bound(a, c),
{
    assert forall|i: int| 0 <= i < a.len() implies match a[i] {
        Binding::Bound(_) => #[trigger] c[i] == a[i],
        Binding::Unbound(level, kind) => match c[i] {
            Binding::Bound(_) => true,
            Binding::Unbound(now, kind2) => now.0 <= level.0 && kind2 == kind,
        },
    } by {
        let _ = b[i];
    }
}

pub proof fn lemma_perform_length(s: State)
    requires
        s.solution.known_to(s.cache),
    ensures
        s.cache.perform(s.solution).type_bindings.len() == s.cache.type_bindings.len(),
{
    let bound = bind_all(s.cache.type_bindings, s.solution.types);
    assert(bound.len() == s.cache.type_bindings.len());
    assert forall|i: int| 0 <= i < s.solution.levels.len() implies (
    #[trigger] s.solution.levels[i]).0.0 < bound.len() by {}
    law_lowering_only_lowers(bound, s.solution.levels);
}

/// Types that unify accord in every later cache in which the solution is kept.
pub proof fn law_solved_types_accord(a: Ty, b: Ty, c: Cache, done: Cache, end: Cache)
    requires
        succeeded(fresh_unification(a, b, c)),
        ({
            let s = fresh_unification(a, b, c)->0.state;
            done.type_bindings == s.cache.perform(s.solution).type_bindings
        }),
        gains(done, end),
        end.type_bindings.len() <= usize::MAX,
    ensures
        accord(a, b, end),
{
    let s0 = committed(c);
    let s = fresh_unification(a, b, c)->0.state;
    let solved = s.cache.perform(s.solution);
    law_unify_keeps(MAX_DEPTH as nat, a, b, s0);
    assert(is_proper(s0));
    law_unification_goes_on(a, b, c);
    lemma_unified_heads(MAX_DEPTH as nat, a, b, c);
    lemma_perform_length(s);
    assert forall|i: nat, j: nat|
        (#[trigger] head(i, a, committed(solved))) is Some && (#[trigger] head(
            j,
            b,
            committed(solved),
        )) is Some implies begin_alike(
        head(i, a, committed(solved))->0,
        head(j, b, committed(solved))->0,
    ) by {
        lemma_commit_head(i, a, s);
        lemma_commit_head(j, b, s);
    }
    assert(stay_bound(solved.type_bindings, end.type_bindings));
    lemma_stay_grow(solved, end);
    law_heads_stay(a, b, committed(solved), committed(end));
    if fieldless(a, end) && fieldless(b, end) {
        lemma_stay_further(c.type_bindings, solved.type_bindings, end.type_bindings);
        let all = lemma_both_clean(a, b, c, end);
        lemma_unify_regular(all, MAX_DEPTH as nat, a, b, s0);
        law_unify_sound(false, MAX_DEPTH as nat, a, b, s0);
        assert forall|n: nat| agrees(false, n, a, b, committed(solved)) by {
            lemma_commit_agrees(false, n, a, b, s);
            assert(agrees(false, n, a, b, s));
        }
        law_agreement_stays(false, a, b, committed(solved), committed(end));
    }
}

/// Committing a solution keeps a state quiet.
pub proof fn lemma_commit_quiet(k: Set<usize>, s: State)
    requires
        quiet(k, s),
        is_proper(s),
        small(s),
    ensures
        quiet(k, committed(s.cache.perform(s.solution))),
{
    let r = committed(s.cache.perform(s.solution));
    lemma_perform_length(s);
    assert forall|v: TypeVariableId|
        k.contains(v.0) && ((#[trigger] r.binding_of(v)) matches Some(
            Binding::Bound(_),
        )) implies clean(r.binding_of(v)->0->Bound_0, k) by {
        lemma_commit_hops(s, Ty::Variable(v));
        assert(hop(Ty::Variable(v), r) == hop(Ty::Variable(v), s));
        assert(s.binding_of(v) is Some);
    }
}

/// Types that unify agree in every later cache in which the solution is kept, if they are clean in
/// a quiet set.
pub proof fn lemma_solved_agree(k: Set<usize>, a: Ty, b: Ty, c: Cache, done: Cache, end: Cache)
    requires
        quiet(k, committed(c)),
        clean(a, k),
        clean(b, k),
        succeeded(fresh_unification(a, b, c)),
        ({
            let s = fresh_unification(a, b, c)->0.state;
            done.type_bindings == s.cache.perform(s.solution).type_bindings
        }),
        gains(done, end),
        end.type_bindings.len() <= usize::MAX,
    ensures
        agree(false, a, b, committed(end)),
        quiet(k, committed(done)),
{
    let s0 = committed(c);
    let s = fresh_unification(a, b, c)->0.state;
    let solved = s.cache.perform(s.solution);
    law_unify_keeps(MAX_DEPTH as nat, a, b, s0);
    assert(is_proper(s0));
    lemma_perform_length(s);
    lemma_stay_grow(solved, end);
    lemma_unify_regular(k, MAX_DEPTH as nat, a, b, s0);
    law_unify_sound(false, MAX_DEPTH as nat, a, b, s0);
    assert forall|n: nat| agrees(false, n, a, b, committed(solved)) by {
        lemma_commit_agrees(false, n, a, b, s);
        assert(agrees(false, n, a, b, s));
    }
    law_agreement_stays(false, a, b, committed(solved), committed(end));
    lemma_commit_quiet(k, s);
    assert forall|v: TypeVariableId|
        k.contains(v.0) && ((#[trigger] committed(done).binding_of(v)) matches Some(
            Binding::Bound(_),
        )) implies clean(committed(done).binding_of(v)->0->Bound_0, k) by {
        assert(committed(done).binding_of(v) == committed(solved).binding_of(v));
    }
}

/// Types that were unified, with nothing to report, accord in every later cache.
pub proof fn law_unified_types_accord(
    a: Ty,
    b: Ty,
    location: Location,
    reason: Reason,
    c: Cache,
    end: Cache,
)
    requires
        after_unify(a, b, location, reason, c) matches Some(c1) && c1.diagnostics.len()
            == c.diagnostics.len() && gains(c1, end),
        end.type_bindings.len() <= usize::MAX,
    ensures
        accord(a, b, end),
{
    let step = fresh_unification(a, b, c)->0;
    let s0 = committed(c);
    law_unify_keeps(MAX_DEPTH as nat, a, b, s0);
    let c1 = after_unify(a, b, location, reason, c)->0;
    assert(step.state.cache.diagnostics == c.diagnostics);
    law_solved_types_accord(a, b, c, c1, end);
}

/// Types that accord still do in every later cache.
pub proof fn law_accord_stays(a: Ty, b: Ty, c: Cache, end: Cache)
    requires
        accord(a, b, c),
        gains(c, end),
        end.type_bindings.len() <= usize::MAX,
    ensures
        accord(a, b, end),
{
    lemma_stay_grow(c, end);
    law_heads_stay(a, b, committed(c), committed(end));
    if fieldless(a, end) && fieldless(b, end) {
        lemma_earlier_fieldless(a, c, end);
        lemma_earlier_fieldless(b, c, end);
        law_agreement_stays(false, a, b, committed(c), committed(end));
    }
}

/// Every type begins like itself.
pub proof fn law_heads_fit_itself(t: Ty, s: State)
    ensures
        heads_fit(t, t, s),
{
    assert forall|i: nat| (#[trigger] head(i, t, s)) is Some implies exists|k: nat| #[trigger]
        head(k, t, s) == head(i, t, s) by {}
    lemma_same_head(t, t, t, s);
}

/// Two different primitive types never accord.
pub proof fn law_primitives_differ(
    a: Ty,
    b: Ty,
    p: PrimitiveType,
    q: PrimitiveType,
    i: nat,
    j: nat,
    c: Cache,
)
    requires
        head(i, a, committed(c)) == Some(Ty::Primitive(p)),
        head(j, b, committed(c)) == Some(Ty::Primitive(q)),
        p != q,
    ensures
        !accord(a, b, c),
{
}

} // verus!
