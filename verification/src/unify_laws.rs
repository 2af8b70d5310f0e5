//! What unification leaves alone: it binds nothing in place, forgets no binding, and has nothing
//! to do where the two types are the same.

use crate::bindings::Solution;
use crate::cache::{lookup, Binding, Cache};
use crate::effects::{
    effect_args, effect_id, effects_without, find_effect, flatten, lemma_find_effect,
};
use crate::occurs::occurs_in;
use crate::occurs_laws::law_listed_is_higher;
use crate::resolve::{follow, MAX_DEPTH};
use crate::row_laws::lemma_sorted_get;
use crate::rows::Row;
use crate::types::{Ty, TypeVariableId};
use crate::unify::{
    fields_of, fresh_row, merge_rows, succeeded, unified, unify_common, unify_effects,
    unify_row_with, unify_rows, unify_seq, unify_subset, unify_types, unify_variable, State, Step,
    RECURSION_LIMIT,
};
use vstd::prelude::*;

verus! {

/// Whether the cache differs from an earlier one only by unbound variables that were added.
pub open spec fn extends(before: Cache, after: Cache) -> bool {
    &&& before.type_bindings.len() <= after.type_bindings.len()
    &&& forall|i: int|
        0 <= i < before.type_bindings.len() ==> #[trigger] after.type_bindings[i]
            == before.type_bindings[i]
    &&& forall|i: int|
        before.type_bindings.len() <= i < after.type_bindings.len() ==> (
        #[trigger] after.type_bindings[i]) is Unbound
    &&& after == (Cache { type_bindings: after.type_bindings, ..before })
}

/// Whether the state keeps all that an earlier one had: the cache only gained unbound variables,
/// no variable lost its binding and no level binding was dropped. The solution speaks of variables
/// of the cache only, and of no bound ones if it did not before.
pub open spec fn keeps(before: State, after: State) -> bool {
    &&& extends(before.cache, after.cache)
    &&& after.solution.known_to(after.cache)
    &&& forall|k: usize| #[trigger]
        before.solution.types.contains_key(k) ==> after.solution.types.contains_key(k)
    &&& before.solution.levels.is_prefix_of(after.solution.levels)
    &&& is_proper(before) ==> is_proper(after)
}

/// The solution binds only variables that the cache leaves unbound.
pub open spec fn is_proper(s: State) -> bool {
    forall|k: usize| #[trigger]
        s.solution.types.contains_key(k) ==> lookup(
            s.cache.type_bindings,
            TypeVariableId(k),
        ) matches Some(Binding::Unbound(_, _))
}

/// Whether the step, if it came to an end, keeps what there was.
pub open spec fn step_keeps(before: State, step: Option<Step>) -> bool {
    step matches Some(s) ==> keeps(before, s.state)
}

proof fn lemma_keeps_all(a: State, b: State, c: State)
    requires
        keeps(a, b),
        keeps(b, c),
    ensures
        keeps(a, c),
{
    assert forall|i: int|
        a.cache.type_bindings.len() <= i < c.cache.type_bindings.len() implies (
    #[trigger] c.cache.type_bindings[i]) is Unbound by {
        if i < b.cache.type_bindings.len() {
            assert(c.cache.type_bindings[i] == b.cache.type_bindings[i]);
        }
    }
    assert forall|i: int| 0 <= i < a.cache.type_bindings.len() implies
        #[trigger] c.cache.type_bindings[i] == a.cache.type_bindings[i] by {
        assert(c.cache.type_bindings[i] == b.cache.type_bindings[i]);
    }
    assert(a.solution.levels =~= c.solution.levels.subrange(
        0,
        a.solution.levels.len() as int,
    )) by {
        assert(a.solution.levels =~= b.solution.levels.subrange(
            0,
            a.solution.levels.len() as int,
        ));
        assert(b.solution.levels =~= c.solution.levels.subrange(
            0,
            b.solution.levels.len() as int,
        ));
        assert forall|i: int| 0 <= i < a.solution.levels.len() implies a.solution.levels[i]
            == c.solution.levels[i] by {
            assert(b.solution.levels[i] == c.solution.levels.subrange(
                0,
                b.solution.levels.len() as int,
            )[i]);
            assert(a.solution.levels[i] == b.solution.levels.subrange(
                0,
                a.solution.levels.len() as int,
            )[i]);
        }
    }
}

proof fn lemma_keeps_same(s: State)
    requires
        s.solution.known_to(s.cache),
    ensures
        keeps(s, s),
{
    assert(s.solution.levels =~= s.solution.levels.subrange(0, s.solution.levels.len() as int));
}

proof fn lemma_keeps_insert(s: State, id: TypeVariableId, t: Ty)
    requires
        s.solution.known_to(s.cache),
        lookup(s.cache.type_bindings, id) matches Some(Binding::Unbound(_, _)),
    ensures
        keeps(s, s.insert(id, t)),
{
    lemma_keeps_same(s);
}

pub proof fn lemma_keeps_fresh(s: State, a: TypeVariableId, b: TypeVariableId)
    requires
        s.solution.known_to(s.cache),
        fresh_row(s.cache, a, b) is Some,
    ensures
        keeps(s, State { solution: s.solution, cache: fresh_row(s.cache, a, b)->0 }),
{
    lemma_keeps_same(s);
}

/// Unification binds no type variable in place: whether or not the types unify, the cache keeps
/// all it had and gains only unbound variables. The bindings given to it are added to: each
/// variable that had a binding has one still, and no variable that the cache binds gets another.
pub proof fn law_unify_keeps(depth: nat, a: Ty, b: Ty, s: State)
    requires
        s.solution.known_to(s.cache),
    ensures
        step_keeps(s, unify_types(depth, a, b, s)),
    decreases depth, 0nat, 0nat,
{
    lemma_keeps_same(s);
    if depth > 0 {
        let d = (depth - 1) as nat;
        match (a, b) {
            (Ty::Variable(id), _) => lemma_unify_variable_keeps(d, id, a, b, true, s),
            (_, Ty::Variable(id)) => lemma_unify_variable_keeps(d, id, b, a, false, s),
            (
                Ty::Function { parameters, return_type, environment, effects, has_varargs },
                Ty::Function {
                    parameters: parameters2,
                    return_type: return_type2,
                    environment: environment2,
                    effects: effects2,
                    has_varargs: has_varargs2,
                },
            ) => {
                lemma_unify_seq_keeps(d, parameters, parameters2, s);
                let s1 = unify_seq(d, parameters, parameters2, s);
                if succeeded(s1) {
                    let t1 = s1->0.state;
                    law_unify_keeps(d, *return_type2, *return_type, t1);
                    let s2 = unify_types(d, *return_type2, *return_type, t1);
                    if s2 is Some {
                        lemma_keeps_all(s, t1, s2->0.state);
                    }
                    if succeeded(s2) {
                        let t2 = s2->0.state;
                        law_unify_keeps(d, *environment, *environment2, t2);
                        let s3 = unify_types(d, *environment, *environment2, t2);
                        if s3 is Some {
                            lemma_keeps_all(s, t2, s3->0.state);
                        }
                        if succeeded(s3) {
                            let t3 = s3->0.state;
                            law_unify_keeps(d, *effects, *effects2, t3);
                            let s4 = unify_types(d, *effects, *effects2, t3);
                            if s4 is Some {
                                lemma_keeps_all(s, t3, s4->0.state);
                            }
                        }
                    }
                }
            },
            (Ty::Application(c1, args1), Ty::Application(c2, args2)) => {
                law_unify_keeps(d, *c1, *c2, s);
                let s1 = unify_types(d, *c1, *c2, s);
                if succeeded(s1) {
                    let t1 = s1->0.state;
                    lemma_unify_seq_keeps(d, args1, args2, t1);
                    let s2 = unify_seq(d, args1, args2, t1);
                    if s2 is Some {
                        lemma_keeps_all(s, t1, s2->0.state);
                    }
                }
            },
            (
                Ty::Ref { sharedness, mutability, lifetime },
                Ty::Ref { sharedness: sharedness2, mutability: mutability2, lifetime: lifetime2 },
            ) => {
                law_unify_keeps(d, *sharedness, *sharedness2, s);
                let s1 = unify_types(d, *sharedness, *sharedness2, s);
                if succeeded(s1) {
                    let t1 = s1->0.state;
                    law_unify_keeps(d, *mutability, *mutability2, t1);
                    let s2 = unify_types(d, *mutability, *mutability2, t1);
                    if s2 is Some {
                        lemma_keeps_all(s, t1, s2->0.state);
                    }
                    if succeeded(s2) {
                        let t2 = s2->0.state;
                        law_unify_keeps(d, *lifetime, *lifetime2, t2);
                        let s3 = unify_types(d, *lifetime, *lifetime2, t2);
                        if s3 is Some {
                            lemma_keeps_all(s, t2, s3->0.state);
                        }
                    }
                }
            },
            (Ty::Struct(names1, types1, rest1), _) => match lookup(s.cache.type_bindings, rest1) {
                None => {},
                Some(Binding::Bound(t)) => law_unify_keeps(d, t, b, s),
                Some(Binding::Unbound(_, _)) => match b {
                    Ty::Struct(names2, types2, rest2) => match lookup(
                        s.cache.type_bindings,
                        rest2,
                    ) {
                        None => {},
                        Some(Binding::Bound(t)) => law_unify_keeps(d, t, a, s),
                        Some(Binding::Unbound(_, _)) => lemma_unify_rows_keeps(
                            d,
                            Row { names: names1, types: types1 },
                            rest1,
                            Row { names: names2, types: types2 },
                            rest2,
                            s,
                        ),
                    },
                    _ => lemma_unify_row_with_keeps(
                        d,
                        Row { names: names1, types: types1 },
                        rest1,
                        b,
                        s,
                    ),
                },
            },
            (_, Ty::Struct(names2, types2, rest2)) => match lookup(s.cache.type_bindings, rest2) {
                None => {},
                Some(Binding::Bound(t)) => law_unify_keeps(d, t, a, s),
                Some(Binding::Unbound(_, _)) => lemma_unify_row_with_keeps(
                    d,
                    Row { names: names2, types: types2 },
                    rest2,
                    a,
                    s,
                ),
            },
            (Ty::NamedGeneric(id1, _), _) => match s.binding_of(id1) {
                None => {},
                Some(Binding::Bound(t)) => law_unify_keeps(d, t, b, s),
                Some(Binding::Unbound(_, _)) => {
                    if let Ty::NamedGeneric(id2, _) = b {
                        if let Some(Binding::Bound(t)) = s.binding_of(id2) {
                            law_unify_keeps(d, a, t, s);
                        }
                        lemma_keeps_insert(s, id1, b);
                    }
                },
            },
            (_, Ty::NamedGeneric(id2, _)) => {
                if let Some(Binding::Bound(t)) = s.binding_of(id2) {
                    law_unify_keeps(d, a, t, s);
                }
            },
            (Ty::Effects(effects1, extension1), Ty::Effects(effects2, extension2)) => {
                lemma_unify_effects_keeps(d, effects1, extension1, effects2, extension2, s);
            },
            _ => {},
        }
    }
}

/// The same holds of unifying types pair by pair.
pub proof fn lemma_unify_seq_keeps(depth: nat, xs: Seq<Ty>, ys: Seq<Ty>, s: State)
    requires
        s.solution.known_to(s.cache),
    ensures
        step_keeps(s, unify_seq(depth, xs, ys, s)),
    decreases depth, 1nat, xs.len(),
{
    lemma_keeps_same(s);
    if xs.len() > 0 && ys.len() > 0 {
        law_unify_keeps(depth, xs[0], ys[0], s);
        let first = unify_types(depth, xs[0], ys[0], s);
        if succeeded(first) {
            let t = first->0.state;
            lemma_unify_seq_keeps(depth, xs.skip(1), ys.skip(1), t);
            let rest = unify_seq(depth, xs.skip(1), ys.skip(1), t);
            if rest is Some {
                lemma_keeps_all(s, t, rest->0.state);
            }
        }
    }
}

/// The same holds of unifying a variable with a type.
pub proof fn lemma_unify_variable_keeps(
    depth: nat,
    id: TypeVariableId,
    a: Ty,
    b: Ty,
    on_lhs: bool,
    s: State,
)
    requires
        s.solution.known_to(s.cache),
    ensures
        step_keeps(s, unify_variable(depth, id, a, b, on_lhs, s)),
    decreases depth, 1nat, 0nat,
{
    lemma_keeps_same(s);
    let types = s.solution.types;
    let vars = s.cache.type_bindings;
    match s.binding_of(id) {
        None => {},
        Some(Binding::Bound(t)) => {
            if on_lhs {
                law_unify_keeps(depth, t, b, s);
            } else {
                law_unify_keeps(depth, b, t, s);
            }
        },
        Some(Binding::Unbound(level, _)) => {
            if let Some(end) = follow(MAX_DEPTH as nat, b, types, vars) {
                let found = occurs_in(RECURSION_LIMIT as nat, id, level, end, types, vars);
                if let Some((false, levels)) = found {
                    law_listed_is_higher(RECURSION_LIMIT as nat, id, level, end, types, vars);
                    let r = State {
                        solution: Solution {
                            types: types.insert(id.0, end),
                            levels: s.solution.levels + levels,
                        },
                        cache: s.cache,
                    };
                    assert(s.solution.levels =~= r.solution.levels.subrange(
                        0,
                        s.solution.levels.len() as int,
                    ));
                    let n = s.solution.levels.len();
                    assert forall|i: int| 0 <= i < r.solution.levels.len() implies (
                    #[trigger] r.solution.levels[i]).0.0 < vars.len() by {
                        if i < n {
                            assert(r.solution.levels[i] == s.solution.levels[i]);
                        } else {
                            assert(r.solution.levels[i] == levels[i - n]);
                        }
                    }
                    assert(keeps(s, r));
                }
            }
        },
    }
}

proof fn lemma_merge_rows_keeps(depth: nat, row1: Row, row2: Row, s: State)
    requires
        s.solution.known_to(s.cache),
    ensures
        merge_rows(depth, row1, row2, s) matches Some((step, _)) ==> keeps(s, step.state),
    decreases depth, 2nat, row2.names.len(),
{
    lemma_keeps_same(s);
    if row2.names.len() > 0 {
        let name = row2.names[0];
        let typ = row2.types[0];
        let rest = Row { names: row2.names.skip(1), types: row2.types.skip(1) };
        match row1.get(name) {
            None => lemma_merge_rows_keeps(depth, row1.insert(name, typ), rest, s),
            Some(typ1) => {
                law_unify_keeps(depth, typ1, typ, s);
                if let Some(first) = unify_types(depth, typ1, typ, s) {
                    if first.ok {
                        lemma_merge_rows_keeps(depth, row1, rest, first.state);
                        if let Some((last, _)) = merge_rows(depth, row1, rest, first.state) {
                            lemma_keeps_all(s, first.state, last.state);
                        }
                    }
                }
            },
        }
    }
}

proof fn lemma_unify_rows_keeps(
    depth: nat,
    row1: Row,
    rest1: TypeVariableId,
    row2: Row,
    rest2: TypeVariableId,
    s: State,
)
    requires
        s.solution.known_to(s.cache),
    ensures
        step_keeps(s, unify_rows(depth, row1, rest1, row2, rest2, s)),
    decreases depth, 3nat, 0nat,
{
    lemma_merge_rows_keeps(depth, row1, row2, s);
    if let Some((first, merged)) = merge_rows(depth, row1, row2, s) {
        let s1 = first.state;
        let n = merged.names.len();
        if !first.ok {
        } else if n != row1.names.len() && n != row2.names.len() {
            let v1 = Ty::Variable(rest1);
            let v2 = Ty::Variable(rest2);
            lemma_unify_variable_keeps(depth, rest1, v1, v2, true, s1);
            let second = unify_variable(depth, rest1, v1, v2, true, s1);
            if second is Some {
                lemma_keeps_all(s, s1, second->0.state);
            }
            if succeeded(second) {
                let s2 = second->0.state;
                if let Some(c) = fresh_row(s2.cache, rest1, rest2) {
                    let s3 = State { solution: s2.solution, cache: c };
                    lemma_keeps_fresh(s2, rest1, rest2);
                    lemma_keeps_all(s, s2, s3);
                    let t = Ty::Struct(merged.names, merged.types, s2.cache.next_id());
                    lemma_keeps_insert(s3, rest2, t);
                    lemma_keeps_all(s, s3, s3.insert(rest2, t));
                }
            }
        } else if n != row1.names.len() {
            let v1 = Ty::Variable(rest1);
            let t = Ty::Struct(merged.names, merged.types, rest2);
            lemma_unify_variable_keeps(depth, rest1, v1, t, true, s1);
            let last = unify_variable(depth, rest1, v1, t, true, s1);
            if last is Some {
                lemma_keeps_all(s, s1, last->0.state);
            }
        } else if n != row2.names.len() {
            let v2 = Ty::Variable(rest2);
            let t = Ty::Struct(merged.names, merged.types, rest1);
            lemma_unify_variable_keeps(depth, rest2, v2, t, false, s1);
            let last = unify_variable(depth, rest2, v2, t, false, s1);
            if last is Some {
                lemma_keeps_all(s, s1, last->0.state);
            }
        }
    }
}

proof fn lemma_unify_subset_keeps(depth: nat, fields: Row, template: Row, s: State)
    requires
        s.solution.known_to(s.cache),
    ensures
        step_keeps(s, unify_subset(depth, fields, template, s)),
    decreases depth, 2nat, fields.names.len(),
{
    lemma_keeps_same(s);
    if fields.names.len() > 0 {
        if let Some(t) = template.get(fields.names[0]) {
            law_unify_keeps(depth, t, fields.types[0], s);
            let first = unify_types(depth, t, fields.types[0], s);
            if succeeded(first) {
                let s1 = first->0.state;
                let rest = Row { names: fields.names.skip(1), types: fields.types.skip(1) };
                lemma_unify_subset_keeps(depth, rest, template, s1);
                let last = unify_subset(depth, rest, template, s1);
                if last is Some {
                    lemma_keeps_all(s, s1, last->0.state);
                }
            }
        }
    }
}

proof fn lemma_unify_row_with_keeps(
    depth: nat,
    fields: Row,
    rest: TypeVariableId,
    other: Ty,
    s: State,
)
    requires
        s.solution.known_to(s.cache),
        lookup(s.cache.type_bindings, rest) matches Some(Binding::Unbound(_, _)),
    ensures
        step_keeps(s, unify_row_with(depth, fields, rest, other, s)),
    decreases depth, 3nat, 0nat,
{
    lemma_keeps_same(s);
    if let Some(Some(template)) = fields_of(MAX_DEPTH as nat, other, Seq::empty(), s) {
        lemma_unify_subset_keeps(depth, fields, template, s);
        let first = unify_subset(depth, fields, template, s);
        if succeeded(first) {
            let s1 = first->0.state;
            assert(s1.cache.type_bindings[rest.0 as int] == s.cache.type_bindings[rest.0 as int]);
            lemma_keeps_insert(s1, rest, other);
            lemma_keeps_all(s, s1, s1.insert(rest, other));
        }
    }
}

/// The same holds of unifying the arguments of common effects.
pub proof fn lemma_unify_common_keeps(depth: nat, effects: Seq<Ty>, others: Seq<Ty>, s: State)
    requires
        s.solution.known_to(s.cache),
    ensures
        step_keeps(s, unify_common(depth, effects, others, s)),
    decreases depth, 2nat, effects.len(),
{
    lemma_keeps_same(s);
    if effects.len() > 0 {
        match find_effect(others, effect_id(effects[0])) {
            None => lemma_unify_common_keeps(depth, effects.skip(1), others, s),
            Some(i) => {
                let xs = effect_args(effects[0]);
                let ys = effect_args(others[i]);
                lemma_unify_seq_keeps(depth, xs, ys, s);
                let first = unify_seq(depth, xs, ys, s);
                if succeeded(first) {
                    let s1 = first->0.state;
                    lemma_unify_common_keeps(depth, effects.skip(1), others, s1);
                    let last = unify_common(depth, effects.skip(1), others, s1);
                    if last is Some {
                        lemma_keeps_all(s, s1, last->0.state);
                    }
                }
            },
        }
    }
}

pub proof fn lemma_unify_effects_keeps(
    depth: nat,
    effects1: Seq<Ty>,
    extension1: Option<TypeVariableId>,
    effects2: Seq<Ty>,
    extension2: Option<TypeVariableId>,
    s: State,
)
    requires
        s.solution.known_to(s.cache),
    ensures
        step_keeps(s, unify_effects(depth, effects1, extension1, effects2, extension2, s)),
    decreases depth, 3nat, 0nat,
{
    let types = s.solution.types;
    let vars = s.cache.type_bindings;
    let flat1 = flatten(MAX_DEPTH as nat, effects1, extension1, types, vars);
    let flat2 = flatten(MAX_DEPTH as nat, effects2, extension2, types, vars);
    if flat1 is Some && flat2 is Some {
        let (xs, end1) = flat1->0;
        let (ys, end2) = flat2->0;
        lemma_unify_common_keeps(depth, xs, ys, s);
        let first = unify_common(depth, xs, ys, s);
        if succeeded(first) {
            let s1 = first->0.state;
            let only1 = effects_without(xs, ys);
            let only2 = effects_without(ys, xs);
            match (end1, end2) {
                (None, None) => {},
                (Some(x), None) => {
                    lemma_bind_row_keeps(depth, x, Ty::Effects(only2, None), s, s1);
                },
                (None, Some(y)) => {
                    lemma_bind_row_keeps(depth, y, Ty::Effects(only1, None), s, s1);
                },
                (Some(x), Some(y)) => {
                    lemma_bind_row_keeps(depth, x, Ty::Variable(y), s, s1);
                    if let Some(c) = fresh_row(s1.cache, x, y) {
                        let z = s1.cache.next_id();
                        let s2 = State { solution: s1.solution, cache: c };
                        lemma_keeps_fresh(s1, x, y);
                        lemma_keeps_all(s, s1, s2);
                        let t1 = Ty::Effects(only2, Some(z));
                        let t2 = Ty::Effects(only1, Some(z));
                        lemma_bind_row_keeps(depth, x, t1, s, s2);
                        let second = unify_variable(depth, x, Ty::Variable(x), t1, true, s2);
                        if succeeded(second) {
                            lemma_bind_row_keeps(depth, y, t2, s, second->0.state);
                        }
                    }
                },
            }
        }
    }
}

proof fn lemma_bind_row_keeps(depth: nat, x: TypeVariableId, t: Ty, s: State, s1: State)
    requires
        s.solution.known_to(s.cache),
        keeps(s, s1),
    ensures
        step_keeps(s, unify_variable(depth, x, Ty::Variable(x), t, true, s1)),
    decreases depth, 2nat, 0nat,
{
    lemma_unify_variable_keeps(depth, x, Ty::Variable(x), t, true, s1);
    let last = unify_variable(depth, x, Ty::Variable(x), t, true, s1);
    if last is Some {
        lemma_keeps_all(s, s1, last->0.state);
    }
}

/// Whether none of the variables in the type is bound, its rows are ordered and no effect stands
/// twice in one of its rows of effects. The type is nested less than `depth` deep.
pub open spec fn is_open(depth: nat, t: Ty, s: State) -> bool
    decreases depth,
{
    if depth == 0 {
        false
    } else {
        let d = (depth - 1) as nat;
        match t {
            Ty::Primitive(_) => true,
            Ty::UserDefined(_) => true,
            Ty::Tag(_) => true,
            Ty::Variable(x) => s.is_unbound(x),
            Ty::NamedGeneric(x, _) => s.is_unbound(x),
            Ty::Function { parameters, return_type, environment, effects, has_varargs } => {
                &&& forall|i: int|
                    0 <= i < parameters.len() ==> is_open(d, #[trigger] parameters[i], s)
                &&& is_open(d, *return_type, s)
                &&& is_open(d, *environment, s)
                &&& is_open(d, *effects, s)
            },
            Ty::Application(constructor, args) => {
                &&& is_open(d, *constructor, s)
                &&& forall|i: int| 0 <= i < args.len() ==> is_open(d, #[trigger] args[i], s)
            },
            Ty::Ref { sharedness, mutability, lifetime } => {
                &&& is_open(d, *sharedness, s)
                &&& is_open(d, *mutability, s)
                &&& is_open(d, *lifetime, s)
            },
            Ty::Struct(names, types, rest) => {
                &&& s.is_unbound(rest)
                &&& (Row { names, types }).sorted()
                &&& forall|i: int| 0 <= i < types.len() ==> is_open(d, #[trigger] types[i], s)
            },
            Ty::Effects(effects, extension) => {
                &&& extension matches Some(x) ==> s.is_unbound(x)
                &&& forall|i: int, j: int|
                    0 <= i < effects.len() && 0 <= j < effects.len() && effect_id(
                        #[trigger] effects[i],
                    ) == effect_id(#[trigger] effects[j]) ==> i == j
                &&& forall|i: int, k: int|
                    0 <= i < effects.len() && 0 <= k < effect_args(effects[i]).len() ==> is_open(
                        d,
                        #[trigger] effect_args(effects[i])[k],
                        s,
                    )
            },
            Ty::Effect(_, _) => false,
        }
    }
}

/// Whether the step succeeded and changed nothing.
pub open spec fn changes_nothing(step: Option<Step>, s: State) -> bool {
    step matches Some(r) && r.ok && r.state == s
}

/// A type with no bound variable unifies with itself, and nothing is bound by it.
pub proof fn law_unify_itself(depth: nat, t: Ty, s: State)
    requires
        is_open(depth, t, s),
    ensures
        changes_nothing(unify_types(depth, t, t, s), s),
    decreases depth, 0nat, 0nat,
{
    let d = (depth - 1) as nat;
    match t {
        Ty::Variable(x) => {
            assert(follow(
                MAX_DEPTH as nat,
                t,
                s.solution.types,
                s.cache.type_bindings,
            ) == Some(t));
            assert(unify_variable(d, x, t, t, true, s) == unified(s));
        },
        Ty::Function { parameters, return_type, environment, effects, .. } => {
            lemma_seq_itself(d, parameters, s);
            law_unify_itself(d, *return_type, s);
            law_unify_itself(d, *environment, s);
            law_unify_itself(d, *effects, s);
        },
        Ty::Application(constructor, args) => {
            law_unify_itself(d, *constructor, s);
            lemma_seq_itself(d, args, s);
        },
        Ty::Ref { sharedness, mutability, lifetime } => {
            law_unify_itself(d, *sharedness, s);
            law_unify_itself(d, *mutability, s);
            law_unify_itself(d, *lifetime, s);
        },
        Ty::Struct(names, types, rest) => {
            let row = Row { names, types };
            assert(row.names.skip(0) =~= row.names);
            assert(row.types.skip(0) =~= row.types);
            lemma_merge_itself(d, row, 0, s);
            assert(changes_nothing(unify_rows(d, row, rest, row, rest, s), s));
        },
        Ty::Effects(effects, extension) => {
            assert(effects.skip(0) =~= effects);
            lemma_common_itself(d, effects, 0, s);
            lemma_nothing_without(effects, effects.len() as int);
            assert(effects.take(effects.len() as int) =~= effects);
            let flat = flatten(
                MAX_DEPTH as nat,
                effects,
                extension,
                s.solution.types,
                s.cache.type_bindings,
            );
            assert(flat == Some((effects, extension)));
            if let Some(x) = extension {
                let v = Ty::Variable(x);
                assert(follow(
                    MAX_DEPTH as nat,
                    v,
                    s.solution.types,
                    s.cache.type_bindings,
                ) == Some(v));
                assert(unify_variable(d, x, v, v, true, s) == unified(s));
            }
            assert(changes_nothing(
                unify_effects(d, effects, extension, effects, extension, s),
                s,
            ));
        },
        _ => {},
    }
}

pub proof fn lemma_seq_itself(depth: nat, ts: Seq<Ty>, s: State)
    requires
        forall|i: int| 0 <= i < ts.len() ==> is_open(depth, #[trigger] ts[i], s),
    ensures
        changes_nothing(unify_seq(depth, ts, ts, s), s),
    decreases depth, 1nat, ts.len(),
{
    if ts.len() > 0 {
        law_unify_itself(depth, ts[0], s);
        let rest = ts.skip(1);
        assert forall|i: int| 0 <= i < rest.len() implies is_open(depth, #[trigger] rest[i], s) by {
            assert(rest[i] == ts[i + 1]);
        }
        lemma_seq_itself(depth, rest, s);
    }
}

proof fn lemma_merge_itself(depth: nat, row: Row, i: int, s: State)
    requires
        row.sorted(),
        0 <= i <= row.names.len(),
        forall|k: int| 0 <= k < row.types.len() ==> is_open(depth, #[trigger] row.types[k], s),
    ensures
        merge_rows(
            depth,
            row,
            Row { names: row.names.skip(i), types: row.types.skip(i) },
            s,
        ) matches Some((r, merged)) && r.ok && r.state == s && merged == row,
    decreases depth, 2nat, row.names.len() - i,
{
    if i < row.names.len() {
        lemma_sorted_get(row, i);
        law_unify_itself(depth, row.types[i], s);
        assert(row.names.skip(i).skip(1) =~= row.names.skip(i + 1));
        assert(row.types.skip(i).skip(1) =~= row.types.skip(i + 1));
        lemma_merge_itself(depth, row, i + 1, s);
    }
}

proof fn lemma_common_itself(depth: nat, effects: Seq<Ty>, i: int, s: State)
    requires
        0 <= i <= effects.len(),
        forall|a: int, b: int|
            0 <= a < effects.len() && 0 <= b < effects.len() && effect_id(#[trigger] effects[a])
                == effect_id(#[trigger] effects[b]) ==> a == b,
        forall|a: int, k: int|
            0 <= a < effects.len() && 0 <= k < effect_args(effects[a]).len() ==> is_open(
                depth,
                #[trigger] effect_args(effects[a])[k],
                s,
            ),
    ensures
        changes_nothing(unify_common(depth, effects.skip(i), effects, s), s),
    decreases depth, 2nat, effects.len() - i,
{
    if i < effects.len() {
        let e = effects[i];
        assert(effects.skip(i)[0] == e);
        lemma_find_effect(effects, effect_id(e));
        assert(find_effect(effects, effect_id(e)) == Some(i));
        assert forall|k: int| 0 <= k < effect_args(e).len() implies is_open(
            depth,
            #[trigger] effect_args(e)[k],
            s,
        ) by {
            assert(is_open(depth, effect_args(effects[i])[k], s));
        }
        lemma_seq_itself(depth, effect_args(e), s);
        assert(effects.skip(i).skip(1) =~= effects.skip(i + 1));
        lemma_common_itself(depth, effects, i + 1, s);
    }
}

proof fn lemma_nothing_without(effects: Seq<Ty>, n: int)
    requires
        0 <= n <= effects.len(),
    ensures
        effects_without(effects.take(n), effects) == Seq::<Ty>::empty(),
    decreases n,
{
    if n > 0 {
        assert(effects.take(n).drop_last() =~= effects.take(n - 1));
        lemma_nothing_without(effects, n - 1);
        assert(effects.take(n).last() == effects[n - 1]);
        lemma_find_effect(effects, effect_id(effects[n - 1]));
    }
}

} // verus!
