//! The bound on the nesting of unification does not matter: where a result is defined, a higher
//! bound gives the same.

use crate::cache::{lookup, Binding};
use crate::effects::{effect_args, effect_id, effects_without, find_effect, flatten};
use crate::resolve::MAX_DEPTH;
use crate::rows::Row;
use crate::types::{Ty, TypeVariableId};
use crate::unify::{
    fields_of, fresh_row, merge_rows, succeeded, unify_common, unify_effects, unify_row_with,
    unify_rows, unify_seq, unify_subset, unify_types, unify_variable, State,
};
use vstd::prelude::*;

verus! {

/// Where unification is defined within some depth, it comes to the same within any greater depth.
pub proof fn law_more_depth(d: nat, e: nat, a: Ty, b: Ty, s: State)
    requires
        d <= e,
        unify_types(d, a, b, s) is Some,
    ensures
        unify_types(e, a, b, s) == unify_types(d, a, b, s),
    decreases d, 0nat, 0nat,
{
    let d1 = (d - 1) as nat;
    let e1 = (e - 1) as nat;
    match (a, b) {
        (Ty::Variable(id), _) => lemma_variable_deeper(d1, e1, id, a, b, true, s),
        (_, Ty::Variable(id)) => lemma_variable_deeper(d1, e1, id, b, a, false, s),
        (
            Ty::Function { parameters, return_type, environment, effects, has_varargs },
            Ty::Function {
                parameters: parameters2,
                return_type: return_type2,
                environment: environment2,
                effects: effects2,
                has_varargs: has_varargs2,
            },
        ) => {
            if parameters.len() != parameters2.len() && !(has_varargs && parameters2.len()
                >= parameters.len()) && !(has_varargs2 && parameters.len()
                >= parameters2.len()) {
            } else {
                lemma_seq_deeper(d1, e1, parameters, parameters2, s);
                let s1 = unify_seq(d1, parameters, parameters2, s);
                if succeeded(s1) {
                    let t1 = s1->0.state;
                    law_more_depth(d1, e1, *return_type2, *return_type, t1);
                    let s2 = unify_types(d1, *return_type2, *return_type, t1);
                    if succeeded(s2) {
                        let t2 = s2->0.state;
                        law_more_depth(d1, e1, *environment, *environment2, t2);
                        let s3 = unify_types(d1, *environment, *environment2, t2);
                        if succeeded(s3) {
                            law_more_depth(d1, e1, *effects, *effects2, s3->0.state);
                        }
                    }
                }
            }
        },
        (Ty::Application(c1, args1), Ty::Application(c2, args2)) => {
            law_more_depth(d1, e1, *c1, *c2, s);
            let s1 = unify_types(d1, *c1, *c2, s);
            if succeeded(s1) && args1.len() == args2.len() {
                lemma_seq_deeper(d1, e1, args1, args2, s1->0.state);
            }
        },
        (
            Ty::Ref { sharedness, mutability, lifetime },
            Ty::Ref { sharedness: sharedness2, mutability: mutability2, lifetime: lifetime2 },
        ) => {
            law_more_depth(d1, e1, *sharedness, *sharedness2, s);
            let s1 = unify_types(d1, *sharedness, *sharedness2, s);
            if succeeded(s1) {
                let t1 = s1->0.state;
                law_more_depth(d1, e1, *mutability, *mutability2, t1);
                let s2 = unify_types(d1, *mutability, *mutability2, t1);
                if succeeded(s2) {
                    law_more_depth(d1, e1, *lifetime, *lifetime2, s2->0.state);
                }
            }
        },
        (Ty::Struct(names1, types1, rest1), _) => match lookup(s.cache.type_bindings, rest1) {
            None => {},
            Some(Binding::Bound(t)) => law_more_depth(d1, e1, t, b, s),
            Some(Binding::Unbound(_, _)) => match b {
                Ty::Struct(names2, types2, rest2) => match lookup(s.cache.type_bindings, rest2) {
                    None => {},
                    Some(Binding::Bound(t)) => law_more_depth(d1, e1, t, a, s),
                    Some(Binding::Unbound(_, _)) => lemma_rows_deeper(
                        d1,
                        e1,
                        Row { names: names1, types: types1 },
                        rest1,
                        Row { names: names2, types: types2 },
                        rest2,
                        s,
                    ),
                },
                _ => lemma_row_with_deeper(
                    d1,
                    e1,
                    Row { names: names1, types: types1 },
                    rest1,
                    b,
                    s,
                ),
            },
        },
        (_, Ty::Struct(names2, types2, rest2)) => match lookup(s.cache.type_bindings, rest2) {
            None => {},
            Some(Binding::Bound(t)) => law_more_depth(d1, e1, t, a, s),
            Some(Binding::Unbound(_, _)) => lemma_row_with_deeper(
                d1,
                e1,
                Row { names: names2, types: types2 },
                rest2,
                a,
                s,
            ),
        },
        (Ty::NamedGeneric(id1, _), _) => match s.binding_of(id1) {
            None => {},
            Some(Binding::Bound(t)) => law_more_depth(d1, e1, t, b, s),
            Some(Binding::Unbound(_, _)) => {
                if let Ty::NamedGeneric(id2, _) = b {
                    if let Some(Binding::Bound(t)) = s.binding_of(id2) {
                        law_more_depth(d1, e1, a, t, s);
                    }
                }
            },
        },
        (_, Ty::NamedGeneric(id2, _)) => {
            if let Some(Binding::Bound(t)) = s.binding_of(id2) {
                law_more_depth(d1, e1, a, t, s);
            }
        },
        (Ty::Effects(effects1, extension1), Ty::Effects(effects2, extension2)) => {
            lemma_effects_deeper(d1, e1, effects1, extension1, effects2, extension2, s);
        },
        _ => {},
    }
}

proof fn lemma_seq_deeper(d: nat, e: nat, xs: Seq<Ty>, ys: Seq<Ty>, s: State)
    requires
        d <= e,
        unify_seq(d, xs, ys, s) is Some,
    ensures
        unify_seq(e, xs, ys, s) == unify_seq(d, xs, ys, s),
    decreases d, 1nat, xs.len(),
{
    if xs.len() > 0 && ys.len() > 0 {
        law_more_depth(d, e, xs[0], ys[0], s);
        let first = unify_types(d, xs[0], ys[0], s);
        if succeeded(first) {
            lemma_seq_deeper(d, e, xs.skip(1), ys.skip(1), first->0.state);
        }
    }
}

proof fn lemma_variable_deeper(
    d: nat,
    e: nat,
    id: TypeVariableId,
    a: Ty,
    b: Ty,
    on_lhs: bool,
    s: State,
)
    requires
        d <= e,
        unify_variable(d, id, a, b, on_lhs, s) is Some,
    ensures
        unify_variable(e, id, a, b, on_lhs, s) == unify_variable(d, id, a, b, on_lhs, s),
    decreases d, 1nat, 0nat,
{
    if let Some(Binding::Bound(t)) = s.binding_of(id) {
        if on_lhs {
            law_more_depth(d, e, t, b, s);
        } else {
            law_more_depth(d, e, b, t, s);
        }
    }
}

proof fn lemma_merge_deeper(d: nat, e: nat, row1: Row, row2: Row, s: State)
    requires
        d <= e,
        merge_rows(d, row1, row2, s) is Some,
    ensures
        merge_rows(e, row1, row2, s) == merge_rows(d, row1, row2, s),
    decreases d, 2nat, row2.names.len(),
{
    if row2.names.len() > 0 {
        let name = row2.names[0];
        let typ = row2.types[0];
        let rest = Row { names: row2.names.skip(1), types: row2.types.skip(1) };
        match row1.get(name) {
            None => lemma_merge_deeper(d, e, row1.insert(name, typ), rest, s),
            Some(typ1) => {
                law_more_depth(d, e, typ1, typ, s);
                let first = unify_types(d, typ1, typ, s)->0;
                if first.ok {
                    lemma_merge_deeper(d, e, row1, rest, first.state);
                }
            },
        }
    }
}

proof fn lemma_rows_deeper(
    d: nat,
    e: nat,
    row1: Row,
    rest1: TypeVariableId,
    row2: Row,
    rest2: TypeVariableId,
    s: State,
)
    requires
        d <= e,
        unify_rows(d, row1, rest1, row2, rest2, s) is Some,
    ensures
        unify_rows(e, row1, rest1, row2, rest2, s) == unify_rows(d, row1, rest1, row2, rest2, s),
    decreases d, 3nat, 0nat,
{
    lemma_merge_deeper(d, e, row1, row2, s);
    let (first, merged) = merge_rows(d, row1, row2, s)->0;
    let s1 = first.state;
    let n = merged.names.len();
    let v1 = Ty::Variable(rest1);
    let v2 = Ty::Variable(rest2);
    if !first.ok {
    } else if n != row1.names.len() && n != row2.names.len() {
        lemma_variable_deeper(d, e, rest1, v1, v2, true, s1);
    } else if n != row1.names.len() {
        let t = Ty::Struct(merged.names, merged.types, rest2);
        lemma_variable_deeper(d, e, rest1, v1, t, true, s1);
    } else if n != row2.names.len() {
        let t = Ty::Struct(merged.names, merged.types, rest1);
        lemma_variable_deeper(d, e, rest2, v2, t, false, s1);
    }
}

proof fn lemma_subset_deeper(d: nat, e: nat, fields: Row, template: Row, s: State)
    requires
        d <= e,
        unify_subset(d, fields, template, s) is Some,
    ensures
        unify_subset(e, fields, template, s) == unify_subset(d, fields, template, s),
    decreases d, 2nat, fields.names.len(),
{
    if fields.names.len() > 0 {
        if let Some(t) = template.get(fields.names[0]) {
            law_more_depth(d, e, t, fields.types[0], s);
            let first = unify_types(d, t, fields.types[0], s);
            if succeeded(first) {
                let rest = Row { names: fields.names.skip(1), types: fields.types.skip(1) };
                lemma_subset_deeper(d, e, rest, template, first->0.state);
            }
        }
    }
}

proof fn lemma_row_with_deeper(
    d: nat,
    e: nat,
    fields: Row,
    rest: TypeVariableId,
    other: Ty,
    s: State,
)
    requires
        d <= e,
        unify_row_with(d, fields, rest, other, s) is Some,
    ensures
        unify_row_with(e, fields, rest, other, s) == unify_row_with(d, fields, rest, other, s),
    decreases d, 3nat, 0nat,
{
    if let Some(Some(template)) = fields_of(MAX_DEPTH as nat, other, Seq::empty(), s) {
        if fields.names.len() <= template.names.len() {
            lemma_subset_deeper(d, e, fields, template, s);
        }
    }
}

proof fn lemma_common_deeper(d: nat, e: nat, effects: Seq<Ty>, others: Seq<Ty>, s: State)
    requires
        d <= e,
        unify_common(d, effects, others, s) is Some,
    ensures
        unify_common(e, effects, others, s) == unify_common(d, effects, others, s),
    decreases d, 2nat, effects.len(),
{
    if effects.len() > 0 {
        match find_effect(others, effect_id(effects[0])) {
            None => lemma_common_deeper(d, e, effects.skip(1), others, s),
            Some(i) => {
                let xs = effect_args(effects[0]);
                let ys = effect_args(others[i]);
                if xs.len() == ys.len() {
                    lemma_seq_deeper(d, e, xs, ys, s);
                    let first = unify_seq(d, xs, ys, s);
                    if succeeded(first) {
                        lemma_common_deeper(d, e, effects.skip(1), others, first->0.state);
                    }
                }
            },
        }
    }
}

proof fn lemma_effects_deeper(
    d: nat,
    e: nat,
    effects1: Seq<Ty>,
    extension1: Option<TypeVariableId>,
    effects2: Seq<Ty>,
    extension2: Option<TypeVariableId>,
    s: State,
)
    requires
        d <= e,
        unify_effects(d, effects1, extension1, effects2, extension2, s) is Some,
    ensures
        unify_effects(e, effects1, extension1, effects2, extension2, s) == unify_effects(
            d,
            effects1,
            extension1,
            effects2,
            extension2,
            s,
        ),
    decreases d, 3nat, 0nat,
{
    let types = s.solution.types;
    let vars = s.cache.type_bindings;
    let (xs, end1) = flatten(MAX_DEPTH as nat, effects1, extension1, types, vars)->0;
    let (ys, end2) = flatten(MAX_DEPTH as nat, effects2, extension2, types, vars)->0;
    lemma_common_deeper(d, e, xs, ys, s);
    let first = unify_common(d, xs, ys, s);
    if succeeded(first) {
        let s1 = first->0.state;
        let only1 = effects_without(xs, ys);
        let only2 = effects_without(ys, xs);
        match (end1, end2) {
            (None, None) => {},
            (Some(x), None) => {
                if only1.len() == 0 {
                    let t = Ty::Effects(only2, None);
                    lemma_variable_deeper(d, e, x, Ty::Variable(x), t, true, s1);
                }
            },
            (None, Some(y)) => {
                if only2.len() == 0 {
                    let t = Ty::Effects(only1, None);
                    lemma_variable_deeper(d, e, y, Ty::Variable(y), t, true, s1);
                }
            },
            (Some(x), Some(y)) => {
                if only1.len() == 0 && only2.len() == 0 {
                    lemma_variable_deeper(d, e, x, Ty::Variable(x), Ty::Variable(y), true, s1);
                } else if x != y {
                    let z = s1.cache.next_id();
                    let c = fresh_row(s1.cache, x, y)->0;
                    let s2 = State { solution: s1.solution, cache: c };
                    let t1 = Ty::Effects(only2, Some(z));
                    let t2 = Ty::Effects(only1, Some(z));
                    lemma_variable_deeper(d, e, x, Ty::Variable(x), t1, true, s2);
                    let second = unify_variable(d, x, Ty::Variable(x), t1, true, s2);
                    if succeeded(second) {
                        let s3 = second->0.state;
                        lemma_variable_deeper(d, e, y, Ty::Variable(y), t2, true, s3);
                    }
                }
            },
        }
    }
}

} // verus!
