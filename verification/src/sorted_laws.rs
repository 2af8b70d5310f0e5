//! Rows of fields stay ordered by name, without a name that occurs twice: collecting and merging
//! fields, replacing variables and unification all keep them so.

use crate::bindings::{bind_all, lower_levels, min_level, Solution};
use crate::cache::{lookup, Binding, Cache, Info, InfoBody, Location, Reason};
use crate::effects::{
    effect_args, effect_id, effects_without, find_effect, flatten, lemma_find_effect,
};
use crate::occurs_laws::law_lowering_only_lowers;
use crate::resolve::{application_bindings, follow, paired, MAX_DEPTH};
use crate::row_laws::law_insert_sorted;
use crate::rows::{find_name, lemma_find_name, lemma_place_of, place_of, Row};
use crate::solve::{after_unify, fresh_unification};
use crate::subst::{
    bind, bind_seq, bind_variable, extend_row, replace, replace_seq, replace_variable,
};
use crate::types::{LetBindingLevel, Ty, TypeVariableId};
use crate::unify::{
    collect_row, fields_of, fresh_row, merge_rows, succeeded, unify_common, unify_effects,
    unify_row_with, unify_rows, unify_seq, unify_subset, unify_types, unify_variable, State, Step,
};
use crate::unify_laws::law_unify_keeps;
use vstd::prelude::*;

verus! {

/// Whether every row of fields in the type is ordered by name, and no name occurs twice in it.
pub open spec fn rows_sorted(t: Ty) -> bool
    decreases t,
{
    match t {
        Ty::Function { parameters, return_type, environment, effects, has_varargs } => {
            &&& forall|i: int| 0 <= i < parameters.len() ==> rows_sorted(#[trigger] parameters[i])
            &&& rows_sorted(*return_type)
            &&& rows_sorted(*environment)
            &&& rows_sorted(*effects)
        },
        Ty::Application(constructor, args) => {
            &&& rows_sorted(*constructor)
            &&& forall|i: int| 0 <= i < args.len() ==> rows_sorted(#[trigger] args[i])
        },
        Ty::Ref { sharedness, mutability, lifetime } => {
            &&& rows_sorted(*sharedness)
            &&& rows_sorted(*mutability)
            &&& rows_sorted(*lifetime)
        },
        Ty::Struct(names, types, _) => {
            &&& (Row { names, types }).sorted()
            &&& forall|i: int| 0 <= i < types.len() ==> rows_sorted(#[trigger] types[i])
        },
        Ty::Effect(_, args) => forall|i: int|
            0 <= i < args.len() ==> rows_sorted(#[trigger] args[i]),
        Ty::Effects(effects, _) => forall|i: int|
            0 <= i < effects.len() ==> rows_sorted(#[trigger] effects[i]),
        _ => true,
    }
}

/// Whether every row in any of the types is ordered.
pub open spec fn all_rows_sorted(ts: Seq<Ty>) -> bool {
    forall|i: int| 0 <= i < ts.len() ==> rows_sorted(#[trigger] ts[i])
}

/// Whether a row is ordered, and so is every row in the types of its fields.
pub open spec fn row_sorted(r: Row) -> bool {
    r.sorted() && all_rows_sorted(r.types)
}

/// Whether every row in what the bindings hold is ordered.
pub open spec fn values_sorted(types: Map<usize, Ty>) -> bool {
    forall|k: usize| #[trigger] types.contains_key(k) ==> rows_sorted(types[k])
}

/// Whether every row in what the cache binds a variable to is ordered.
pub open spec fn vars_sorted(vars: Seq<Binding>) -> bool {
    forall|i: int|
        0 <= i < vars.len() && (#[trigger] vars[i]) is Bound ==> rows_sorted(vars[i]->Bound_0)
}

/// Whether every row in what is known of a user-defined type is ordered. The fields of a struct
/// type stand in the order in which they are declared.
pub open spec fn info_sorted(info: Info) -> bool {
    match info.body {
        InfoBody::Alias(t) => rows_sorted(t),
        InfoBody::Struct(names, types) => names.len() == types.len() && all_rows_sorted(types),
        _ => true,
    }
}

/// Whether every row in the types that the cache holds is ordered.
pub open spec fn cache_sorted(c: Cache) -> bool {
    &&& vars_sorted(c.type_bindings)
    &&& forall|i: int| 0 <= i < c.type_infos.len() ==> info_sorted(#[trigger] c.type_infos[i])
}

/// Whether every row that unification meets is ordered.
pub open spec fn state_sorted(s: State) -> bool {
    values_sorted(s.solution.types) && cache_sorted(s.cache)
}

/// Whether every row is ordered in what a step leaves behind, if it came to an end.
pub open spec fn step_sorted(step: Option<Step>) -> bool {
    step matches Some(r) ==> state_sorted(r.state)
}

/// Setting a field of an ordered row keeps it ordered.
pub proof fn law_set_field_sorted(r: Row, name: Seq<char>, typ: Ty)
    requires
        row_sorted(r),
        rows_sorted(typ),
    ensures
        row_sorted(r.insert(name, typ)),
{
    law_insert_sorted(r, name, typ);
    lemma_find_name(r.names, name);
    let q = r.insert(name, typ);
    assert forall|i: int| 0 <= i < q.types.len() implies rows_sorted(#[trigger] q.types[i]) by {
        match find_name(r.names, name) {
            Some(k) => {
                if i != k {
                    assert(q.types[i] == r.types[i]);
                }
            },
            None => {
                let at = place_of(r.names, name);
                lemma_place_of(r.names, name);
                if i < at {
                    assert(q.types[i] == r.types[i]);
                } else if i > at {
                    assert(q.types[i] == r.types[i - 1]);
                }
            },
        }
    }
}

/// Collecting fields makes an ordered row of them, in whatever order they come.
pub proof fn law_collected_is_sorted(n: nat, names: Seq<Seq<char>>, types: Seq<Ty>)
    requires
        n <= names.len(),
        n <= types.len(),
        all_rows_sorted(types),
    ensures
        row_sorted(collect_row(n, names, types)),
    decreases n,
{
    if n > 0 {
        law_collected_is_sorted((n - 1) as nat, names, types);
        assert(rows_sorted(types[n - 1]));
        law_set_field_sorted(
            collect_row((n - 1) as nat, names, types),
            names[n - 1],
            types[n - 1],
        );
    }
}

proof fn lemma_extended_sorted(effects: Seq<Ty>, extension: Ty)
    requires
        all_rows_sorted(effects),
        rows_sorted(extension),
    ensures
        extend_row(effects, extension) matches Some(row) ==> rows_sorted(row),
{
    if let Ty::Effects(more, _) = extension {
        lemma_joined_sorted(effects, more);
    }
}

proof fn lemma_joined_sorted(a: Seq<Ty>, b: Seq<Ty>)
    requires
        all_rows_sorted(a),
        all_rows_sorted(b),
    ensures
        all_rows_sorted(a + b),
{
    assert forall|i: int| 0 <= i < (a + b).len() implies rows_sorted(#[trigger] (a + b)[i]) by {
        if i < a.len() {
            assert((a + b)[i] == a[i]);
        } else {
            assert((a + b)[i] == b[i - a.len()]);
        }
    }
}

/// Replacing the variables of a type as bindings say keeps its rows ordered.
pub proof fn law_bind_keeps_sorted(depth: nat, t: Ty, types: Map<usize, Ty>, vars: Seq<Binding>)
    requires
        rows_sorted(t),
        values_sorted(types),
        vars_sorted(vars),
    ensures
        bind(depth, t, types, vars) matches Some(r) ==> rows_sorted(r),
    decreases depth, 0nat,
{
    if bind(depth, t, types, vars) is Some {
        let d = (depth - 1) as nat;
        match t {
            Ty::Variable(id) => lemma_bind_variable_sorted(d, id, types, vars),
            Ty::Function { parameters, return_type, environment, effects, .. } => {
                lemma_bind_all_sorted(d, parameters, types, vars);
                law_bind_keeps_sorted(d, *return_type, types, vars);
                law_bind_keeps_sorted(d, *environment, types, vars);
                law_bind_keeps_sorted(d, *effects, types, vars);
            },
            Ty::Ref { sharedness, mutability, lifetime } => {
                law_bind_keeps_sorted(d, *sharedness, types, vars);
                law_bind_keeps_sorted(d, *mutability, types, vars);
                law_bind_keeps_sorted(d, *lifetime, types, vars);
            },
            Ty::Application(constructor, args) => {
                law_bind_keeps_sorted(d, *constructor, types, vars);
                lemma_bind_all_sorted(d, args, types, vars);
            },
            Ty::Struct(names, fields, rest) => {
                lemma_bind_all_sorted(d, fields, types, vars);
                if !types.contains_key(rest.0) {
                    if let Some(Binding::Bound(b)) = lookup(vars, rest) {
                        assert(vars[rest.0 as int] is Bound);
                        law_bind_keeps_sorted(d, b, types, vars);
                    }
                }
            },
            Ty::Effect(_, args) => lemma_bind_all_sorted(d, args, types, vars),
            Ty::Effects(effects, extension) => {
                lemma_bind_all_sorted(d, effects, types, vars);
                if let Some(id) = extension {
                    lemma_bind_variable_sorted(d, id, types, vars);
                    lemma_extended_sorted(
                        bind_seq(d, effects, types, vars)->0,
                        bind_variable(d, id, types, vars)->0,
                    );
                }
            },
            _ => {},
        }
    }
}

proof fn lemma_bind_all_sorted(depth: nat, ts: Seq<Ty>, types: Map<usize, Ty>, vars: Seq<Binding>)
    requires
        all_rows_sorted(ts),
        values_sorted(types),
        vars_sorted(vars),
    ensures
        bind_seq(depth, ts, types, vars) matches Some(rs) ==> rs.len() == ts.len()
            && all_rows_sorted(rs),
    decreases depth, 1nat,
{
    if let Some(rs) = bind_seq(depth, ts, types, vars) {
        assert forall|i: int| 0 <= i < rs.len() implies rows_sorted(#[trigger] rs[i]) by {
            assert(bind(depth, ts[i], types, vars) is Some);
            law_bind_keeps_sorted(depth, ts[i], types, vars);
        }
    }
}

proof fn lemma_bind_variable_sorted(
    depth: nat,
    id: TypeVariableId,
    types: Map<usize, Ty>,
    vars: Seq<Binding>,
)
    requires
        values_sorted(types),
        vars_sorted(vars),
    ensures
        bind_variable(depth, id, types, vars) matches Some(r) ==> rows_sorted(r),
    decreases depth, 1nat,
{
    if !types.contains_key(id.0) {
        if let Some(Binding::Bound(b)) = lookup(vars, id) {
            assert(vars[id.0 as int] is Bound);
            law_bind_keeps_sorted(depth, b, types, vars);
        }
    }
}

/// Replacing all the variables of a type keeps its rows ordered, and those in the bindings and the
/// cache.
pub proof fn law_replace_keeps_sorted(depth: nat, t: Ty, types: Map<usize, Ty>, c: Cache)
    requires
        rows_sorted(t),
        values_sorted(types),
        cache_sorted(c),
    ensures
        replace(depth, t, types, c) matches Some((r, m, c1)) ==> rows_sorted(r) && values_sorted(m)
            && cache_sorted(c1),
    decreases depth, 0nat, 0nat,
{
    if replace(depth, t, types, c) is Some {
        let d = (depth - 1) as nat;
        match t {
            Ty::Variable(id) | Ty::NamedGeneric(id, _) => {
                lemma_replace_variable_sorted(d, id, types, c);
            },
            Ty::Function { parameters, return_type, environment, effects, .. } => {
                lemma_replace_all_sorted(d, parameters, types, c);
                let (_, m1, c1) = replace_seq(d, parameters, types, c)->0;
                law_replace_keeps_sorted(d, *return_type, m1, c1);
                let (_, m2, c2) = replace(d, *return_type, m1, c1)->0;
                law_replace_keeps_sorted(d, *environment, m2, c2);
                let (_, m3, c3) = replace(d, *environment, m2, c2)->0;
                law_replace_keeps_sorted(d, *effects, m3, c3);
            },
            Ty::Ref { sharedness, mutability, lifetime } => {
                law_replace_keeps_sorted(d, *mutability, types, c);
                let (_, m1, c1) = replace(d, *mutability, types, c)->0;
                law_replace_keeps_sorted(d, *sharedness, m1, c1);
                let (_, m2, c2) = replace(d, *sharedness, m1, c1)->0;
                law_replace_keeps_sorted(d, *lifetime, m2, c2);
            },
            Ty::Application(constructor, args) => {
                law_replace_keeps_sorted(d, *constructor, types, c);
                let (_, m1, c1) = replace(d, *constructor, types, c)->0;
                lemma_replace_all_sorted(d, args, m1, c1);
            },
            Ty::Struct(_, fields, rest) => {
                match lookup(c.type_bindings, rest) {
                    Some(Binding::Bound(b)) => {
                        assert(c.type_bindings[rest.0 as int] is Bound);
                        law_replace_keeps_sorted(d, b, types, c);
                    },
                    _ => {
                        lemma_replace_variable_sorted(d, rest, types, c);
                        let (x, m1, c1) = replace_variable(d, rest, types, c)->0;
                        if x is Variable {
                            lemma_replace_all_sorted(d, fields, m1, c1);
                        }
                    },
                }
            },
            Ty::Effect(_, args) => lemma_replace_all_sorted(d, args, types, c),
            Ty::Effects(effects, extension) => {
                lemma_replace_all_sorted(d, effects, types, c);
                let (e, m1, c1) = replace_seq(d, effects, types, c)->0;
                if let Some(id) = extension {
                    lemma_replace_variable_sorted(d, id, m1, c1);
                    let (x, _, _) = replace_variable(d, id, m1, c1)->0;
                    lemma_extended_sorted(e, x);
                }
            },
            _ => {},
        }
    }
}

proof fn lemma_replace_all_sorted(depth: nat, ts: Seq<Ty>, types: Map<usize, Ty>, c: Cache)
    requires
        all_rows_sorted(ts),
        values_sorted(types),
        cache_sorted(c),
    ensures
        replace_seq(depth, ts, types, c) matches Some((rs, m, c1)) ==> rs.len() == ts.len()
            && all_rows_sorted(rs) && values_sorted(m) && cache_sorted(c1),
    decreases depth, 1nat, ts.len(),
{
    if ts.len() > 0 && replace_seq(depth, ts, types, c) is Some {
        let rest = ts.skip(1);
        law_replace_keeps_sorted(depth, ts[0], types, c);
        let (r, m1, c1) = replace(depth, ts[0], types, c)->0;
        assert forall|i: int| 0 <= i < rest.len() implies rows_sorted(#[trigger] rest[i]) by {
            assert(rest[i] == ts[i + 1]);
        }
        lemma_replace_all_sorted(depth, rest, m1, c1);
        let (more, _, _) = replace_seq(depth, rest, m1, c1)->0;
        let one = seq![r];
        assert(all_rows_sorted(one));
        lemma_joined_sorted(one, more);
    }
}

proof fn lemma_replace_variable_sorted(
    depth: nat,
    id: TypeVariableId,
    types: Map<usize, Ty>,
    c: Cache,
)
    requires
        values_sorted(types),
        cache_sorted(c),
    ensures
        replace_variable(depth, id, types, c) matches Some((r, m, c1)) ==> rows_sorted(r)
            && values_sorted(m) && cache_sorted(c1),
    decreases depth, 1nat, 0nat,
{
    match lookup(c.type_bindings, id) {
        Some(Binding::Bound(b)) => {
            assert(c.type_bindings[id.0 as int] is Bound);
            law_replace_keeps_sorted(depth, b, types, c);
        },
        _ => {
            lemma_fresh_sorted(c, c.current_level);
        },
    }
}

proof fn lemma_fresh_sorted(c: Cache, level: LetBindingLevel)
    requires
        cache_sorted(c),
    ensures
        cache_sorted(c.fresh(level)),
{
    let vars = c.fresh(level).type_bindings;
    assert forall|i: int| 0 <= i < vars.len() && (#[trigger] vars[i]) is Bound implies rows_sorted(
        vars[i]->Bound_0,
    ) by {
        assert(vars[i] == c.type_bindings[i]);
    }
}

proof fn lemma_binding_sorted(id: TypeVariableId, s: State)
    requires
        state_sorted(s),
    ensures
        s.binding_of(id) matches Some(Binding::Bound(b)) ==> rows_sorted(b),
{
    if let Some(Binding::Bound(b)) = lookup(s.cache.type_bindings, id) {
        assert(s.cache.type_bindings[id.0 as int] is Bound);
    }
}

proof fn lemma_follow_sorted(depth: nat, t: Ty, s: State)
    requires
        rows_sorted(t),
        state_sorted(s),
    ensures
        follow(depth, t, s.solution.types, s.cache.type_bindings) matches Some(end) ==> rows_sorted(
            end,
        ),
    decreases depth,
{
    if depth > 0 {
        if let Ty::Variable(v) = t {
            lemma_binding_sorted(v, s);
            if let Some(Binding::Bound(b)) = s.binding_of(v) {
                lemma_follow_sorted((depth - 1) as nat, b, s);
            }
        }
    }
}

proof fn lemma_application_sorted(
    n: nat,
    params: Seq<TypeVariableId>,
    args: Seq<Ty>,
    s: State,
)
    requires
        n <= args.len(),
        all_rows_sorted(args),
        state_sorted(s),
    ensures
        application_bindings(n, params, args, s.cache.type_bindings) matches Some(m)
            ==> values_sorted(m),
    decreases n,
{
    if n > 0 {
        lemma_application_sorted((n - 1) as nat, params, args, s);
        let cached = State { solution: Solution::empty(), cache: s.cache };
        assert(rows_sorted(args[n - 1]));
        lemma_follow_sorted(MAX_DEPTH as nat, args[n - 1], cached);
    }
}

/// The fields of a type form an ordered row.
pub proof fn law_fields_are_sorted(depth: nat, t: Ty, args: Seq<Ty>, s: State)
    requires
        rows_sorted(t),
        all_rows_sorted(args),
        state_sorted(s),
    ensures
        fields_of(depth, t, args, s) matches Some(Some(r)) ==> row_sorted(r),
    decreases depth,
{
    if depth > 0 {
        let d = (depth - 1) as nat;
        let vars = s.cache.type_bindings;
        match t {
            Ty::UserDefined(id) => {
                if id.0 < s.cache.type_infos.len() {
                    let info = s.cache.type_infos[id.0 as int];
                    assert(info_sorted(info));
                    match info.body {
                        InfoBody::Alias(alias) => law_fields_are_sorted(d, alias, args, s),
                        InfoBody::Struct(names, types) => {
                            law_collected_is_sorted(names.len(), names, types);
                            let n = paired(info.args, args);
                            lemma_application_sorted(n, info.args, args, s);
                            if let Some(m) = application_bindings(n, info.args, args, vars) {
                                lemma_bind_all_sorted(MAX_DEPTH as nat, types, m, vars);
                                if let Some(bound) = bind_seq(MAX_DEPTH as nat, types, m, vars) {
                                    law_collected_is_sorted(names.len(), names, bound);
                                }
                            }
                        },
                        _ => {},
                    }
                }
            },
            Ty::Application(constructor, args2) => {
                lemma_follow_sorted(MAX_DEPTH as nat, *constructor, s);
                if let Some(c) = follow(
                    MAX_DEPTH as nat,
                    *constructor,
                    s.solution.types,
                    vars,
                ) {
                    law_fields_are_sorted(d, c, args2, s);
                }
            },
            Ty::Struct(_, _, v) | Ty::Variable(v) => {
                if let Some(Binding::Bound(b)) = lookup(vars, v) {
                    assert(vars[v.0 as int] is Bound);
                    law_fields_are_sorted(d, b, args, s);
                }
            },
            _ => {},
        }
    }
}

proof fn lemma_rest_sorted(ts: Seq<Ty>)
    requires
        all_rows_sorted(ts),
        ts.len() > 0,
    ensures
        rows_sorted(ts[0]),
        all_rows_sorted(ts.skip(1)),
{
    assert forall|i: int| 0 <= i < ts.skip(1).len() implies rows_sorted(
        #[trigger] ts.skip(1)[i],
    ) by {
        assert(ts.skip(1)[i] == ts[i + 1]);
    }
}

proof fn lemma_insert_sorted_state(s: State, id: TypeVariableId, t: Ty)
    requires
        state_sorted(s),
        rows_sorted(t),
    ensures
        state_sorted(s.insert(id, t)),
{
}

/// Unification keeps rows ordered, whether or not the types unify: what is bound to a row, by the
/// cache or by the bindings found, has its fields in order.
pub proof fn law_unify_keeps_sorted(depth: nat, a: Ty, b: Ty, s: State)
    requires
        rows_sorted(a),
        rows_sorted(b),
        state_sorted(s),
    ensures
        step_sorted(unify_types(depth, a, b, s)),
    decreases depth, 0nat, 0nat,
{
    if depth > 0 {
        let d = (depth - 1) as nat;
        let vars = s.cache.type_bindings;
        match (a, b) {
            (Ty::Variable(id), _) => lemma_variable_sorted(d, id, a, b, true, s),
            (_, Ty::Variable(id)) => lemma_variable_sorted(d, id, b, a, false, s),
            (
                Ty::Function { parameters, return_type, environment, effects, .. },
                Ty::Function {
                    parameters: parameters2,
                    return_type: return_type2,
                    environment: environment2,
                    effects: effects2,
                    ..
                },
            ) => {
                lemma_seq_sorted(d, parameters, parameters2, s);
                let s1 = unify_seq(d, parameters, parameters2, s);
                if succeeded(s1) {
                    let t1 = s1->0.state;
                    law_unify_keeps_sorted(d, *return_type2, *return_type, t1);
                    let s2 = unify_types(d, *return_type2, *return_type, t1);
                    if succeeded(s2) {
                        let t2 = s2->0.state;
                        law_unify_keeps_sorted(d, *environment, *environment2, t2);
                        let s3 = unify_types(d, *environment, *environment2, t2);
                        if succeeded(s3) {
                            law_unify_keeps_sorted(d, *effects, *effects2, s3->0.state);
                        }
                    }
                }
            },
            (Ty::Application(c1, args1), Ty::Application(c2, args2)) => {
                law_unify_keeps_sorted(d, *c1, *c2, s);
                let s1 = unify_types(d, *c1, *c2, s);
                if succeeded(s1) {
                    lemma_seq_sorted(d, args1, args2, s1->0.state);
                }
            },
            (
                Ty::Ref { sharedness, mutability, lifetime },
                Ty::Ref { sharedness: sharedness2, mutability: mutability2, lifetime: lifetime2 },
            ) => {
                law_unify_keeps_sorted(d, *sharedness, *sharedness2, s);
                let s1 = unify_types(d, *sharedness, *sharedness2, s);
                if succeeded(s1) {
                    let t1 = s1->0.state;
                    law_unify_keeps_sorted(d, *mutability, *mutability2, t1);
                    let s2 = unify_types(d, *mutability, *mutability2, t1);
                    if succeeded(s2) {
                        law_unify_keeps_sorted(d, *lifetime, *lifetime2, s2->0.state);
                    }
                }
            },
            (Ty::Struct(names1, types1, rest1), _) => match lookup(vars, rest1) {
                None => {},
                Some(Binding::Bound(t)) => {
                    assert(vars[rest1.0 as int] is Bound);
                    law_unify_keeps_sorted(d, t, b, s);
                },
                Some(Binding::Unbound(_, _)) => {
                    let row1 = Row { names: names1, types: types1 };
                    match b {
                        Ty::Struct(names2, types2, rest2) => match lookup(vars, rest2) {
                            None => {},
                            Some(Binding::Bound(t)) => {
                                assert(vars[rest2.0 as int] is Bound);
                                law_unify_keeps_sorted(d, t, a, s);
                            },
                            Some(Binding::Unbound(_, _)) => {
                                let row2 = Row { names: names2, types: types2 };
                                lemma_rows_sorted(d, row1, rest1, row2, rest2, s);
                            },
                        },
                        _ => lemma_row_with_sorted(d, row1, rest1, b, s),
                    }
                },
            },
            (_, Ty::Struct(names2, types2, rest2)) => match lookup(vars, rest2) {
                None => {},
                Some(Binding::Bound(t)) => {
                    assert(vars[rest2.0 as int] is Bound);
                    law_unify_keeps_sorted(d, t, a, s);
                },
                Some(Binding::Unbound(_, _)) => {
                    let row2 = Row { names: names2, types: types2 };
                    lemma_row_with_sorted(d, row2, rest2, a, s);
                },
            },
            (Ty::NamedGeneric(id1, _), _) => {
                lemma_binding_sorted(id1, s);
                match s.binding_of(id1) {
                    None => {},
                    Some(Binding::Bound(t)) => law_unify_keeps_sorted(d, t, b, s),
                    Some(Binding::Unbound(_, _)) => {
                        if let Ty::NamedGeneric(id2, _) = b {
                            lemma_binding_sorted(id2, s);
                            if let Some(Binding::Bound(t)) = s.binding_of(id2) {
                                law_unify_keeps_sorted(d, a, t, s);
                            }
                            lemma_insert_sorted_state(s, id1, b);
                        }
                    },
                }
            },
            (_, Ty::NamedGeneric(id2, _)) => {
                lemma_binding_sorted(id2, s);
                if let Some(Binding::Bound(t)) = s.binding_of(id2) {
                    law_unify_keeps_sorted(d, a, t, s);
                }
            },
            (Ty::Effects(effects1, extension1), Ty::Effects(effects2, extension2)) => {
                lemma_effects_sorted(d, effects1, extension1, effects2, extension2, s);
            },
            _ => {},
        }
    }
}

proof fn lemma_seq_sorted(depth: nat, xs: Seq<Ty>, ys: Seq<Ty>, s: State)
    requires
        all_rows_sorted(xs),
        all_rows_sorted(ys),
        state_sorted(s),
    ensures
        step_sorted(unify_seq(depth, xs, ys, s)),
    decreases depth, 1nat, xs.len(),
{
    if xs.len() > 0 && ys.len() > 0 {
        lemma_rest_sorted(xs);
        lemma_rest_sorted(ys);
        law_unify_keeps_sorted(depth, xs[0], ys[0], s);
        let first = unify_types(depth, xs[0], ys[0], s);
        if succeeded(first) {
            lemma_seq_sorted(depth, xs.skip(1), ys.skip(1), first->0.state);
        }
    }
}

proof fn lemma_variable_sorted(
    depth: nat,
    id: TypeVariableId,
    a: Ty,
    b: Ty,
    on_lhs: bool,
    s: State,
)
    requires
        rows_sorted(b),
        state_sorted(s),
    ensures
        step_sorted(unify_variable(depth, id, a, b, on_lhs, s)),
    decreases depth, 1nat, 0nat,
{
    lemma_binding_sorted(id, s);
    match s.binding_of(id) {
        None => {},
        Some(Binding::Bound(t)) => {
            if on_lhs {
                law_unify_keeps_sorted(depth, t, b, s);
            } else {
                law_unify_keeps_sorted(depth, b, t, s);
            }
        },
        Some(Binding::Unbound(_, _)) => {
            lemma_follow_sorted(MAX_DEPTH as nat, b, s);
            let types = s.solution.types;
            if let Some(end) = follow(MAX_DEPTH as nat, b, types, s.cache.type_bindings) {
                assert(values_sorted(types.insert(id.0, end)));
            }
        },
    }
}

/// Merging ordered rows makes an ordered row, and keeps the other rows ordered.
pub proof fn law_merge_keeps_sorted(depth: nat, row1: Row, row2: Row, s: State)
    requires
        row_sorted(row1),
        row2.names.len() == row2.types.len(),
        all_rows_sorted(row2.types),
        state_sorted(s),
    ensures
        merge_rows(depth, row1, row2, s) matches Some((step, merged)) ==> state_sorted(step.state)
            && row_sorted(merged),
    decreases depth, 2nat, row2.names.len(),
{
    if row2.names.len() > 0 {
        let name = row2.names[0];
        let typ = row2.types[0];
        let rest = Row { names: row2.names.skip(1), types: row2.types.skip(1) };
        lemma_rest_sorted(row2.types);
        lemma_find_name(row1.names, name);
        match row1.get(name) {
            None => {
                law_set_field_sorted(row1, name, typ);
                law_merge_keeps_sorted(depth, row1.insert(name, typ), rest, s);
            },
            Some(typ1) => {
                let i = find_name(row1.names, name)->0;
                assert(rows_sorted(row1.types[i]));
                law_unify_keeps_sorted(depth, typ1, typ, s);
                if let Some(first) = unify_types(depth, typ1, typ, s) {
                    if first.ok {
                        law_merge_keeps_sorted(depth, row1, rest, first.state);
                    }
                }
            },
        }
    }
}

proof fn lemma_rows_sorted(
    depth: nat,
    row1: Row,
    rest1: TypeVariableId,
    row2: Row,
    rest2: TypeVariableId,
    s: State,
)
    requires
        row_sorted(row1),
        row_sorted(row2),
        state_sorted(s),
    ensures
        step_sorted(unify_rows(depth, row1, rest1, row2, rest2, s)),
    decreases depth, 3nat, 0nat,
{
    law_merge_keeps_sorted(depth, row1, row2, s);
    if let Some((first, merged)) = merge_rows(depth, row1, row2, s) {
        let s1 = first.state;
        let n = merged.names.len();
        if first.ok {
            if n != row1.names.len() && n != row2.names.len() {
                let v1 = Ty::Variable(rest1);
                let v2 = Ty::Variable(rest2);
                lemma_variable_sorted(depth, rest1, v1, v2, true, s1);
                let second = unify_variable(depth, rest1, v1, v2, true, s1);
                if succeeded(second) {
                    let s2 = second->0.state;
                    if let Some(c) = fresh_row(s2.cache, rest1, rest2) {
                        let s3 = State { solution: s2.solution, cache: c };
                        lemma_fresh_row_sorted(s2.cache, rest1, rest2);
                        let t = Ty::Struct(merged.names, merged.types, s2.cache.next_id());
                        assert(merged == Row { names: merged.names, types: merged.types });
                        lemma_insert_sorted_state(s3, rest2, t);
                    }
                }
            } else if n != row1.names.len() {
                let t = Ty::Struct(merged.names, merged.types, rest2);
                assert(merged == Row { names: merged.names, types: merged.types });
                lemma_variable_sorted(depth, rest1, Ty::Variable(rest1), t, true, s1);
            } else if n != row2.names.len() {
                let t = Ty::Struct(merged.names, merged.types, rest1);
                assert(merged == Row { names: merged.names, types: merged.types });
                lemma_variable_sorted(depth, rest2, Ty::Variable(rest2), t, false, s1);
            }
        }
    }
}

proof fn lemma_fresh_row_sorted(c: Cache, a: TypeVariableId, b: TypeVariableId)
    requires
        cache_sorted(c),
    ensures
        fresh_row(c, a, b) matches Some(c1) ==> cache_sorted(c1),
{
    if let (Some(Binding::Unbound(l1, _)), Some(Binding::Unbound(l2, _))) = (
        lookup(c.type_bindings, a),
        lookup(c.type_bindings, b),
    ) {
        lemma_fresh_sorted(c, min_level(l1, l2));
    }
}

proof fn lemma_subset_sorted(depth: nat, fields: Row, template: Row, s: State)
    requires
        fields.names.len() == fields.types.len(),
        all_rows_sorted(fields.types),
        row_sorted(template),
        state_sorted(s),
    ensures
        step_sorted(unify_subset(depth, fields, template, s)),
    decreases depth, 2nat, fields.names.len(),
{
    if fields.names.len() > 0 {
        let name = fields.names[0];
        lemma_rest_sorted(fields.types);
        lemma_find_name(template.names, name);
        if let Some(t) = template.get(name) {
            let i = find_name(template.names, name)->0;
            assert(rows_sorted(template.types[i]));
            law_unify_keeps_sorted(depth, t, fields.types[0], s);
            let first = unify_types(depth, t, fields.types[0], s);
            if succeeded(first) {
                let rest = Row { names: fields.names.skip(1), types: fields.types.skip(1) };
                lemma_subset_sorted(depth, rest, template, first->0.state);
            }
        }
    }
}

proof fn lemma_row_with_sorted(
    depth: nat,
    fields: Row,
    rest: TypeVariableId,
    other: Ty,
    s: State,
)
    requires
        row_sorted(fields),
        rows_sorted(other),
        state_sorted(s),
    ensures
        step_sorted(unify_row_with(depth, fields, rest, other, s)),
    decreases depth, 3nat, 0nat,
{
    law_fields_are_sorted(MAX_DEPTH as nat, other, Seq::empty(), s);
    if let Some(Some(template)) = fields_of(MAX_DEPTH as nat, other, Seq::empty(), s) {
        lemma_subset_sorted(depth, fields, template, s);
        let first = unify_subset(depth, fields, template, s);
        if succeeded(first) {
            lemma_insert_sorted_state(first->0.state, rest, other);
        }
    }
}

proof fn lemma_args_sorted(effect: Ty)
    requires
        rows_sorted(effect),
    ensures
        all_rows_sorted(effect_args(effect)),
{
}

proof fn lemma_common_sorted(depth: nat, effects: Seq<Ty>, others: Seq<Ty>, s: State)
    requires
        all_rows_sorted(effects),
        all_rows_sorted(others),
        state_sorted(s),
    ensures
        step_sorted(unify_common(depth, effects, others, s)),
    decreases depth, 2nat, effects.len(),
{
    if effects.len() > 0 {
        lemma_rest_sorted(effects);
        lemma_find_effect(others, effect_id(effects[0]));
        match find_effect(others, effect_id(effects[0])) {
            None => lemma_common_sorted(depth, effects.skip(1), others, s),
            Some(i) => {
                let xs = effect_args(effects[0]);
                let ys = effect_args(others[i]);
                lemma_args_sorted(effects[0]);
                lemma_args_sorted(others[i]);
                lemma_seq_sorted(depth, xs, ys, s);
                let first = unify_seq(depth, xs, ys, s);
                if succeeded(first) {
                    lemma_common_sorted(depth, effects.skip(1), others, first->0.state);
                }
            },
        }
    }
}

proof fn lemma_flatten_sorted(
    depth: nat,
    effects: Seq<Ty>,
    extension: Option<TypeVariableId>,
    s: State,
)
    requires
        all_rows_sorted(effects),
        state_sorted(s),
    ensures
        flatten(depth, effects, extension, s.solution.types, s.cache.type_bindings) matches Some(
            (xs, _),
        ) ==> all_rows_sorted(xs),
    decreases depth,
{
    if depth > 0 {
        if let Some(id) = extension {
            lemma_binding_sorted(id, s);
            let d = (depth - 1) as nat;
            if let Some(Binding::Bound(b)) = s.binding_of(id) {
                match b {
                    Ty::Variable(v) => lemma_flatten_sorted(d, effects, Some(v), s),
                    Ty::NamedGeneric(v, _) => lemma_flatten_sorted(d, effects, Some(v), s),
                    Ty::Effects(more, end) => {
                        lemma_joined_sorted(effects, more);
                        lemma_flatten_sorted(d, effects + more, end, s);
                    },
                    _ => {},
                }
            }
        }
    }
}

proof fn lemma_without_sorted(effects: Seq<Ty>, others: Seq<Ty>)
    requires
        all_rows_sorted(effects),
    ensures
        all_rows_sorted(effects_without(effects, others)),
    decreases effects.len(),
{
    if effects.len() > 0 {
        let front = effects.drop_last();
        assert forall|i: int| 0 <= i < front.len() implies rows_sorted(#[trigger] front[i]) by {
            assert(front[i] == effects[i]);
        }
        lemma_without_sorted(front, others);
        assert(rows_sorted(effects[effects.len() - 1]));
    }
}

proof fn lemma_effects_sorted(
    depth: nat,
    effects1: Seq<Ty>,
    extension1: Option<TypeVariableId>,
    effects2: Seq<Ty>,
    extension2: Option<TypeVariableId>,
    s: State,
)
    requires
        all_rows_sorted(effects1),
        all_rows_sorted(effects2),
        state_sorted(s),
    ensures
        step_sorted(unify_effects(depth, effects1, extension1, effects2, extension2, s)),
    decreases depth, 3nat, 0nat,
{
    let types = s.solution.types;
    let vars = s.cache.type_bindings;
    let flat1 = flatten(MAX_DEPTH as nat, effects1, extension1, types, vars);
    let flat2 = flatten(MAX_DEPTH as nat, effects2, extension2, types, vars);
    lemma_flatten_sorted(MAX_DEPTH as nat, effects1, extension1, s);
    lemma_flatten_sorted(MAX_DEPTH as nat, effects2, extension2, s);
    if flat1 is Some && flat2 is Some {
        let (xs, end1) = flat1->0;
        let (ys, end2) = flat2->0;
        lemma_common_sorted(depth, xs, ys, s);
        let first = unify_common(depth, xs, ys, s);
        if succeeded(first) {
            let s1 = first->0.state;
            let only1 = effects_without(xs, ys);
            let only2 = effects_without(ys, xs);
            lemma_without_sorted(xs, ys);
            lemma_without_sorted(ys, xs);
            match (end1, end2) {
                (None, None) => {},
                (Some(x), None) => {
                    let t = Ty::Effects(only2, None);
                    lemma_variable_sorted(depth, x, Ty::Variable(x), t, true, s1);
                },
                (None, Some(y)) => {
                    let t = Ty::Effects(only1, None);
                    lemma_variable_sorted(depth, y, Ty::Variable(y), t, true, s1);
                },
                (Some(x), Some(y)) => {
                    lemma_variable_sorted(depth, x, Ty::Variable(x), Ty::Variable(y), true, s1);
                    if let Some(c) = fresh_row(s1.cache, x, y) {
                        let z = s1.cache.next_id();
                        let s2 = State { solution: s1.solution, cache: c };
                        lemma_fresh_row_sorted(s1.cache, x, y);
                        let t1 = Ty::Effects(only2, Some(z));
                        let t2 = Ty::Effects(only1, Some(z));
                        lemma_variable_sorted(depth, x, Ty::Variable(x), t1, true, s2);
                        let second = unify_variable(depth, x, Ty::Variable(x), t1, true, s2);
                        if succeeded(second) {
                            let s3 = second->0.state;
                            lemma_variable_sorted(depth, y, Ty::Variable(y), t2, true, s3);
                        }
                    }
                },
            }
        }
    }
}

/// Unifying two types in the cache keeps the rows there ordered.
pub proof fn law_cache_stays_sorted(
    actual: Ty,
    expected: Ty,
    location: Location,
    reason: Reason,
    c: Cache,
)
    requires
        rows_sorted(actual),
        rows_sorted(expected),
        cache_sorted(c),
    ensures
        after_unify(actual, expected, location, reason, c) matches Some(c1) ==> cache_sorted(c1),
{
    let s0 = State { solution: Solution::empty(), cache: c };
    law_unify_keeps_sorted(MAX_DEPTH as nat, actual, expected, s0);
    law_unify_keeps(MAX_DEPTH as nat, actual, expected, s0);
    if let Some(step) = fresh_unification(actual, expected, c) {
        let s = step.state;
        let vars = s.cache.type_bindings;
        let bound = bind_all(vars, s.solution.types);
        assert(bound.len() == vars.len());
        assert forall|i: int| 0 <= i < s.solution.levels.len() implies (
        #[trigger] s.solution.levels[i]).0.0 < bound.len() by {}
        law_lowering_only_lowers(bound, s.solution.levels);
        let after = lower_levels(bound, s.solution.levels);
        assert forall|i: int|
            0 <= i < after.len() && (#[trigger] after[i]) is Bound implies rows_sorted(
            after[i]->Bound_0,
        ) by {
            assert(bound[i] == after[i]);
            if s.solution.types.contains_key(i as usize) {
                assert(rows_sorted(s.solution.types[i as usize]));
            } else {
                assert(vars[i] == bound[i]);
            }
        }
    }
}

} // verus!
