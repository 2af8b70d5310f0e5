//! What replacing variables leaves alone, and what the variables made on the way are like.

use crate::cache::{lookup, Binding, Cache};
use crate::subst::{bind, bind_seq, bind_variable, replace, replace_seq, replace_variable};
use crate::types::{Kind, Ty, TypeVariableId};
use crate::typevar_laws::{inside, inside_any, inside_variable};
use crate::unify_laws::extends;
use vstd::prelude::*;

verus! {

/// Whether no variable that the type itself holds has a binding, in the given bindings or in the
/// cache.
pub open spec fn is_untouched(t: Ty, types: Map<usize, Ty>, vars: Seq<Binding>) -> bool
    decreases t,
{
    match t {
        Ty::Primitive(_) => true,
        Ty::Tag(_) => true,
        Ty::UserDefined(_) => true,
        Ty::Variable(id) => is_free(id, types, vars),
        Ty::NamedGeneric(id, _) => !types.contains_key(id.0),
        Ty::Function { parameters, return_type, environment, effects, has_varargs } => {
            &&& forall|i: int|
                0 <= i < parameters.len() ==> is_untouched(#[trigger] parameters[i], types, vars)
            &&& is_untouched(*return_type, types, vars)
            &&& is_untouched(*environment, types, vars)
            &&& is_untouched(*effects, types, vars)
        },
        Ty::Application(constructor, args) => {
            &&& is_untouched(*constructor, types, vars)
            &&& forall|i: int|
                0 <= i < args.len() ==> is_untouched(#[trigger] args[i], types, vars)
        },
        Ty::Ref { sharedness, mutability, lifetime } => {
            &&& is_untouched(*sharedness, types, vars)
            &&& is_untouched(*mutability, types, vars)
            &&& is_untouched(*lifetime, types, vars)
        },
        Ty::Struct(_, fields, rest) => {
            &&& is_free(rest, types, vars)
            &&& forall|i: int|
                0 <= i < fields.len() ==> is_untouched(#[trigger] fields[i], types, vars)
        },
        Ty::Effect(_, args) => forall|i: int|
            0 <= i < args.len() ==> is_untouched(#[trigger] args[i], types, vars),
        Ty::Effects(effects, extension) => {
            &&& forall|i: int|
                0 <= i < effects.len() ==> is_untouched(#[trigger] effects[i], types, vars)
            &&& extension matches Some(id) ==> is_free(id, types, vars)
        },
    }
}

/// Whether the variable has no binding.
pub open spec fn is_free(id: TypeVariableId, types: Map<usize, Ty>, vars: Seq<Binding>) -> bool {
    !types.contains_key(id.0) && lookup(vars, id) is Some && lookup(vars, id)->0 is Unbound
}

/// Where no variable of the type has a binding, replacing its variables changes nothing.
pub proof fn law_untouched_stays(depth: nat, t: Ty, types: Map<usize, Ty>, vars: Seq<Binding>)
    requires
        is_untouched(t, types, vars),
        bind(depth, t, types, vars) is Some,
    ensures
        bind(depth, t, types, vars) == Some(t),
    decreases depth, 0nat,
{
    let d = (depth - 1) as nat;
    match t {
        Ty::Variable(id) => {
            assert(bind_variable(d, id, types, vars) == Some(t));
        },
        Ty::Function { parameters, return_type, environment, effects, .. } => {
            lemma_untouched_seq(d, parameters, types, vars);
            law_untouched_stays(d, *return_type, types, vars);
            law_untouched_stays(d, *environment, types, vars);
            law_untouched_stays(d, *effects, types, vars);
        },
        Ty::Application(constructor, args) => {
            law_untouched_stays(d, *constructor, types, vars);
            lemma_untouched_seq(d, args, types, vars);
        },
        Ty::Ref { sharedness, mutability, lifetime } => {
            law_untouched_stays(d, *sharedness, types, vars);
            law_untouched_stays(d, *mutability, types, vars);
            law_untouched_stays(d, *lifetime, types, vars);
        },
        Ty::Struct(_, fields, _) => lemma_untouched_seq(d, fields, types, vars),
        Ty::Effect(_, args) => lemma_untouched_seq(d, args, types, vars),
        Ty::Effects(effects, extension) => {
            lemma_untouched_seq(d, effects, types, vars);
            if let Some(id) = extension {
                assert(bind_variable(d, id, types, vars) == Some(Ty::Variable(id)));
            }
        },
        _ => {},
    }
}

proof fn lemma_untouched_seq(depth: nat, ts: Seq<Ty>, types: Map<usize, Ty>, vars: Seq<Binding>)
    requires
        forall|i: int| 0 <= i < ts.len() ==> is_untouched(#[trigger] ts[i], types, vars),
        bind_seq(depth, ts, types, vars) is Some,
    ensures
        bind_seq(depth, ts, types, vars) == Some(ts),
    decreases depth, 1nat,
{
    assert forall|i: int| 0 <= i < ts.len() implies bind(depth, #[trigger] ts[i], types, vars)
        == Some(ts[i]) by {
        law_untouched_stays(depth, ts[i], types, vars);
    }
    assert(bind_seq(depth, ts, types, vars)->0 =~= ts);
}

/// Whether the bindings and the cache grew by fresh variables alone: what was bound stays, and each
/// variable that is bound now and was not stands for a variable of its own, which is new and
/// unbound at the current level.
pub open spec fn grew_fresh(
    types1: Map<usize, Ty>,
    c1: Cache,
    types2: Map<usize, Ty>,
    c2: Cache,
) -> bool {
    let old_len = c1.type_bindings.len();
    let new_len = c2.type_bindings.len();
    &&& c2 == (Cache { type_bindings: c2.type_bindings, ..c1 })
    &&& old_len <= new_len
    &&& forall|i: int|
        0 <= i < old_len ==> #[trigger] c2.type_bindings[i] == c1.type_bindings[i]
    &&& forall|i: int|
        old_len <= i < new_len ==> #[trigger] c2.type_bindings[i] == Binding::Unbound(
            c1.current_level,
            Kind(0),
        )
    &&& forall|k: usize| #[trigger]
        types1.contains_key(k) ==> types2.contains_key(k) && types2[k] == types1[k]
    &&& forall|k: usize| #[trigger]
        types2.contains_key(k) && !types1.contains_key(k) ==> {
            &&& k < new_len
            &&& c2.type_bindings[k as int] is Unbound
            &&& types2[k] is Variable
            &&& old_len <= types2[k]->Variable_0.0 < new_len
        }
    &&& forall|j: usize, k: usize|
        types2.contains_key(j) && types2.contains_key(k) && !types1.contains_key(j)
            && !types1.contains_key(k) && #[trigger] types2[j] == #[trigger] types2[k] ==> j == k
}

/// Growing twice is growing.
pub proof fn lemma_grew_twice(
    m1: Map<usize, Ty>,
    c1: Cache,
    m2: Map<usize, Ty>,
    c2: Cache,
    m3: Map<usize, Ty>,
    c3: Cache,
)
    requires
        grew_fresh(m1, c1, m2, c2),
        grew_fresh(m2, c2, m3, c3),
    ensures
        grew_fresh(m1, c1, m3, c3),
{
    assert forall|k: usize| #[trigger]
        m3.contains_key(k) && !m1.contains_key(k) implies {
        &&& k < c3.type_bindings.len()
        &&& c3.type_bindings[k as int] is Unbound
        &&& m3[k] is Variable
        &&& c1.type_bindings.len() <= m3[k]->Variable_0.0 < c3.type_bindings.len()
    } by {
        if m2.contains_key(k) {
            assert(c3.type_bindings[k as int] == c2.type_bindings[k as int]);
        }
    }
    assert forall|j: usize, k: usize|
        m3.contains_key(j) && m3.contains_key(k) && !m1.contains_key(j) && !m1.contains_key(k)
            && #[trigger] m3[j] == #[trigger] m3[k] implies j == k by {
        if m2.contains_key(j) {
            assert(m2[j] == m3[j]);
        }
        if m2.contains_key(k) {
            assert(m2[k] == m3[k]);
        }
    }
}

/// Replacing all the variables of a type binds nothing in the cache and changes no binding there
/// was. Each unbound variable that it binds gets a fresh variable of its own.
pub proof fn law_replace_is_fresh(depth: nat, t: Ty, types: Map<usize, Ty>, c: Cache)
    requires
        replace(depth, t, types, c) is Some,
        fits(replace(depth, t, types, c)->0),
    ensures
        grew_after(types, c, replace(depth, t, types, c)->0),
    decreases depth, 0nat, 0nat,
{
    let d = (depth - 1) as nat;
    match t {
        Ty::Variable(id) => lemma_replace_variable_is_fresh(d, id, types, c),
        Ty::NamedGeneric(id, _) => lemma_replace_variable_is_fresh(d, id, types, c),
        Ty::Function { parameters, return_type, environment, effects, .. } => {
            let (_, m1, c1) = replace_seq(d, parameters, types, c)->0;
            let (_, m2, c2) = replace(d, *return_type, m1, c1)->0;
            let (_, m3, c3) = replace(d, *environment, m2, c2)->0;
            let (_, m4, c4) = replace(d, *effects, m3, c3)->0;
            lemma_replace_grows(d, *effects, m3, c3);
            lemma_replace_grows(d, *environment, m2, c2);
            lemma_replace_grows(d, *return_type, m1, c1);
            law_replace_all_is_fresh(d, parameters, types, c);
            law_replace_is_fresh(d, *return_type, m1, c1);
            law_replace_is_fresh(d, *environment, m2, c2);
            law_replace_is_fresh(d, *effects, m3, c3);
            lemma_grew_twice(types, c, m1, c1, m2, c2);
            lemma_grew_twice(types, c, m2, c2, m3, c3);
            lemma_grew_twice(types, c, m3, c3, m4, c4);
        },
        Ty::Ref { sharedness, mutability, lifetime } => {
            let (_, m1, c1) = replace(d, *mutability, types, c)->0;
            let (_, m2, c2) = replace(d, *sharedness, m1, c1)->0;
            let (_, m3, c3) = replace(d, *lifetime, m2, c2)->0;
            lemma_replace_grows(d, *lifetime, m2, c2);
            lemma_replace_grows(d, *sharedness, m1, c1);
            law_replace_is_fresh(d, *mutability, types, c);
            law_replace_is_fresh(d, *sharedness, m1, c1);
            law_replace_is_fresh(d, *lifetime, m2, c2);
            lemma_grew_twice(types, c, m1, c1, m2, c2);
            lemma_grew_twice(types, c, m2, c2, m3, c3);
        },
        Ty::Application(constructor, args) => {
            let (_, m1, c1) = replace(d, *constructor, types, c)->0;
            let (_, m2, c2) = replace_seq(d, args, m1, c1)->0;
            lemma_replace_seq_grows(d, args, m1, c1);
            law_replace_is_fresh(d, *constructor, types, c);
            law_replace_all_is_fresh(d, args, m1, c1);
            lemma_grew_twice(types, c, m1, c1, m2, c2);
        },
        Ty::Struct(_, fields, rest) => match lookup(c.type_bindings, rest) {
            Some(Binding::Bound(b)) => law_replace_is_fresh(d, b, types, c),
            _ => {
                let (x, m1, c1) = replace_variable(d, rest, types, c)->0;
                if x is Variable {
                    let (_, m2, c2) = replace_seq(d, fields, m1, c1)->0;
                    lemma_replace_seq_grows(d, fields, m1, c1);
                    lemma_replace_variable_is_fresh(d, rest, types, c);
                    law_replace_all_is_fresh(d, fields, m1, c1);
                    lemma_grew_twice(types, c, m1, c1, m2, c2);
                } else {
                    lemma_replace_variable_is_fresh(d, rest, types, c);
                }
            },
        },
        Ty::Effect(_, args) => law_replace_all_is_fresh(d, args, types, c),
        Ty::Effects(effects, extension) => {
            let (_, m1, c1) = replace_seq(d, effects, types, c)->0;
            if let Some(id) = extension {
                let (_, m2, c2) = replace_variable(d, id, m1, c1)->0;
                lemma_replace_variable_grows(d, id, m1, c1);
                lemma_replace_variable_is_fresh(d, id, m1, c1);
                law_replace_all_is_fresh(d, effects, types, c);
                lemma_grew_twice(types, c, m1, c1, m2, c2);
            } else {
                law_replace_all_is_fresh(d, effects, types, c);
            }
        },
        _ => {},
    }
}

/// Whether every variable of the cache has an id.
pub open spec fn fits<A>(replaced: (A, Map<usize, Ty>, Cache)) -> bool {
    replaced.2.type_bindings.len() <= usize::MAX
}

/// `grew_fresh` for what comes with a replaced type.
pub open spec fn grew_after<A>(
    types: Map<usize, Ty>,
    c: Cache,
    replaced: (A, Map<usize, Ty>, Cache),
) -> bool {
    grew_fresh(types, c, replaced.1, replaced.2)
}

/// The same holds of replacing all the variables of several types.
pub proof fn law_replace_all_is_fresh(depth: nat, ts: Seq<Ty>, types: Map<usize, Ty>, c: Cache)
    requires
        replace_seq(depth, ts, types, c) is Some,
        fits(replace_seq(depth, ts, types, c)->0),
    ensures
        grew_after(types, c, replace_seq(depth, ts, types, c)->0),
    decreases depth, 1nat, ts.len(),
{
    if ts.len() > 0 {
        let (_, m1, c1) = replace(depth, ts[0], types, c)->0;
        let (_, m2, c2) = replace_seq(depth, ts.skip(1), m1, c1)->0;
        lemma_replace_seq_grows(depth, ts.skip(1), m1, c1);
        law_replace_is_fresh(depth, ts[0], types, c);
        law_replace_all_is_fresh(depth, ts.skip(1), m1, c1);
        lemma_grew_twice(types, c, m1, c1, m2, c2);
    }
}

/// The same holds of replacing a single variable.
pub proof fn lemma_replace_variable_is_fresh(
    depth: nat,
    id: TypeVariableId,
    types: Map<usize, Ty>,
    c: Cache,
)
    requires
        replace_variable(depth, id, types, c) is Some,
        fits(replace_variable(depth, id, types, c)->0),
    ensures
        grew_after(types, c, replace_variable(depth, id, types, c)->0),
    decreases depth, 1nat, 0nat,
{
    match lookup(c.type_bindings, id) {
        Some(Binding::Bound(b)) => law_replace_is_fresh(depth, b, types, c),
        _ => {},
    }
}

/// Replacing makes variables, drops none, and changes nothing else.
pub proof fn lemma_replace_grows(depth: nat, t: Ty, types: Map<usize, Ty>, c: Cache)
    requires
        replace(depth, t, types, c) is Some,
    ensures
        c.type_bindings.len() <= (replace(depth, t, types, c)->0).2.type_bindings.len(),
        (replace(depth, t, types, c)->0).2 == (Cache {
            type_bindings: (replace(depth, t, types, c)->0).2.type_bindings,
            ..c
        }),
    decreases depth, 0nat, 0nat,
{
    let d = (depth - 1) as nat;
    match t {
        Ty::Variable(id) => lemma_replace_variable_grows(d, id, types, c),
        Ty::NamedGeneric(id, _) => lemma_replace_variable_grows(d, id, types, c),
        Ty::Function { parameters, return_type, environment, effects, .. } => {
            let (_, m1, c1) = replace_seq(d, parameters, types, c)->0;
            let (_, m2, c2) = replace(d, *return_type, m1, c1)->0;
            let (_, m3, c3) = replace(d, *environment, m2, c2)->0;
            lemma_replace_seq_grows(d, parameters, types, c);
            lemma_replace_grows(d, *return_type, m1, c1);
            lemma_replace_grows(d, *environment, m2, c2);
            lemma_replace_grows(d, *effects, m3, c3);
        },
        Ty::Ref { sharedness, mutability, lifetime } => {
            let (_, m1, c1) = replace(d, *mutability, types, c)->0;
            let (_, m2, c2) = replace(d, *sharedness, m1, c1)->0;
            lemma_replace_grows(d, *mutability, types, c);
            lemma_replace_grows(d, *sharedness, m1, c1);
            lemma_replace_grows(d, *lifetime, m2, c2);
        },
        Ty::Application(constructor, args) => {
            let (_, m1, c1) = replace(d, *constructor, types, c)->0;
            lemma_replace_grows(d, *constructor, types, c);
            lemma_replace_seq_grows(d, args, m1, c1);
        },
        Ty::Struct(_, fields, rest) => match lookup(c.type_bindings, rest) {
            Some(Binding::Bound(b)) => lemma_replace_grows(d, b, types, c),
            _ => {
                lemma_replace_variable_grows(d, rest, types, c);
                let (x, m1, c1) = replace_variable(d, rest, types, c)->0;
                if x is Variable {
                    lemma_replace_seq_grows(d, fields, m1, c1);
                }
            },
        },
        Ty::Effect(_, args) => lemma_replace_seq_grows(d, args, types, c),
        Ty::Effects(effects, extension) => {
            lemma_replace_seq_grows(d, effects, types, c);
            let (_, m1, c1) = replace_seq(d, effects, types, c)->0;
            if let Some(id) = extension {
                lemma_replace_variable_grows(d, id, m1, c1);
            }
        },
        _ => {},
    }
}

/// Replacing in several types drops no variable either.
pub proof fn lemma_replace_seq_grows(depth: nat, ts: Seq<Ty>, types: Map<usize, Ty>, c: Cache)
    requires
        replace_seq(depth, ts, types, c) is Some,
    ensures
        c.type_bindings.len() <= (replace_seq(depth, ts, types, c)->0).2.type_bindings.len(),
        (replace_seq(depth, ts, types, c)->0).2 == (Cache {
            type_bindings: (replace_seq(depth, ts, types, c)->0).2.type_bindings,
            ..c
        }),
    decreases depth, 1nat, ts.len(),
{
    if ts.len() > 0 {
        let (_, m1, c1) = replace(depth, ts[0], types, c)->0;
        lemma_replace_grows(depth, ts[0], types, c);
        lemma_replace_seq_grows(depth, ts.skip(1), m1, c1);
    }
}

/// Nor does replacing a single variable.
pub proof fn lemma_replace_variable_grows(
    depth: nat,
    id: TypeVariableId,
    types: Map<usize, Ty>,
    c: Cache,
)
    requires
        replace_variable(depth, id, types, c) is Some,
    ensures
        c.type_bindings.len() <= (replace_variable(depth, id, types, c)->0).2.type_bindings.len(),
        (replace_variable(depth, id, types, c)->0).2 == (Cache {
            type_bindings: (replace_variable(depth, id, types, c)->0).2.type_bindings,
            ..c
        }),
    decreases depth, 1nat, 0nat,
{
    match lookup(c.type_bindings, id) {
        Some(Binding::Bound(b)) => lemma_replace_grows(depth, b, types, c),
        _ => {},
    }
}

/// Whether all bindings are to variables.
pub open spec fn only_variables(types: Map<usize, Ty>) -> bool {
    forall|k: usize| #[trigger] types.contains_key(k) ==> types[k] is Variable
}

/// What stands inside a type still does when fresh variables are made.
pub proof fn lemma_inside_grows(n: nat, t: Ty, v: TypeVariableId, c: Cache, c1: Cache)
    requires
        inside(n, t, v, c),
        extends(c, c1),
    ensures
        inside(n, t, v, c1),
    decreases n, 0nat,
{
    let m = (n - 1) as nat;
    match t {
        Ty::Variable(w) => lemma_inside_variable_grows(m, w, v, c, c1),
        Ty::NamedGeneric(w, _) => lemma_inside_variable_grows(m, w, v, c, c1),
        Ty::Function { parameters, return_type, environment, effects, .. } => {
            if inside_any(m, parameters, v, c) {
                lemma_inside_any_grows(m, parameters, v, c, c1);
            } else if inside(m, *environment, v, c) {
                lemma_inside_grows(m, *environment, v, c, c1);
            } else if inside(m, *return_type, v, c) {
                lemma_inside_grows(m, *return_type, v, c, c1);
            } else {
                lemma_inside_grows(m, *effects, v, c, c1);
            }
        },
        Ty::Application(constructor, args) => {
            if inside(m, *constructor, v, c) {
                lemma_inside_grows(m, *constructor, v, c, c1);
            } else {
                lemma_inside_any_grows(m, args, v, c, c1);
            }
        },
        Ty::Ref { sharedness, mutability, lifetime } => {
            if inside(m, *mutability, v, c) {
                lemma_inside_grows(m, *mutability, v, c, c1);
            } else if inside(m, *sharedness, v, c) {
                lemma_inside_grows(m, *sharedness, v, c, c1);
            } else {
                lemma_inside_grows(m, *lifetime, v, c, c1);
            }
        },
        Ty::Struct(_, types, rest) => {
            match lookup(c.type_bindings, rest) {
                Some(Binding::Bound(b)) => lemma_inside_grows(m, b, v, c, c1),
                _ => {
                    if inside_variable(m, rest, v, c) {
                        lemma_inside_variable_grows(m, rest, v, c, c1);
                    } else {
                        lemma_inside_any_grows(m, types, v, c, c1);
                    }
                },
            }
        },
        Ty::Effect(_, args) => lemma_inside_any_grows(m, args, v, c, c1),
        Ty::Effects(effects, extension) => {
            if inside_any(m, effects, v, c) {
                lemma_inside_any_grows(m, effects, v, c, c1);
            } else if let Some(w) = extension {
                lemma_inside_variable_grows(m, w, v, c, c1);
            }
        },
        _ => {},
    }
}

/// The same for several types.
pub proof fn lemma_inside_any_grows(n: nat, ts: Seq<Ty>, v: TypeVariableId, c: Cache, c1: Cache)
    requires
        inside_any(n, ts, v, c),
        extends(c, c1),
    ensures
        inside_any(n, ts, v, c1),
    decreases n, 1nat,
{
    let i = choose|i: int| 0 <= i < ts.len() && inside(n, #[trigger] ts[i], v, c);
    lemma_inside_grows(n, ts[i], v, c, c1);
}

/// The same for a variable.
pub proof fn lemma_inside_variable_grows(
    n: nat,
    w: TypeVariableId,
    v: TypeVariableId,
    c: Cache,
    c1: Cache,
)
    requires
        inside_variable(n, w, v, c),
        extends(c, c1),
    ensures
        inside_variable(n, w, v, c1),
    decreases n, 1nat,
{
    if let Some(Binding::Bound(b)) = lookup(c.type_bindings, w) {
        lemma_inside_grows(n, b, v, c, c1);
    }
}

/// Replacing all the variables of a type reaches each of them: every unbound variable inside the
/// type is bound afterwards, if there were no bindings but to variables.
pub proof fn law_replaces_every_variable(
    depth: nat,
    t: Ty,
    types: Map<usize, Ty>,
    c: Cache,
    v: TypeVariableId,
    n: nat,
)
    requires
        replace(depth, t, types, c) is Some,
        fits(replace(depth, t, types, c)->0),
        only_variables(types),
        inside(n, t, v, c),
    ensures
        (replace(depth, t, types, c)->0).1.contains_key(v.0),
    decreases depth, 0nat, 0nat,
{
    let d = (depth - 1) as nat;
    let m = (n - 1) as nat;
    law_replace_is_fresh(depth, t, types, c);
    match t {
        Ty::Variable(w) => lemma_replaces_variable(d, w, types, c, v, m),
        Ty::NamedGeneric(w, _) => lemma_replaces_variable(d, w, types, c, v, m),
        Ty::Function { parameters, return_type, environment, effects, .. } => {
            let (_, m1, c1) = replace_seq(d, parameters, types, c)->0;
            let (_, m2, c2) = replace(d, *return_type, m1, c1)->0;
            let (_, m3, c3) = replace(d, *environment, m2, c2)->0;
            let (_, m4, c4) = replace(d, *effects, m3, c3)->0;
            lemma_replace_grows(d, *effects, m3, c3);
            lemma_replace_grows(d, *environment, m2, c2);
            lemma_replace_grows(d, *return_type, m1, c1);
            law_replace_all_is_fresh(d, parameters, types, c);
            law_replace_is_fresh(d, *return_type, m1, c1);
            law_replace_is_fresh(d, *environment, m2, c2);
            law_replace_is_fresh(d, *effects, m3, c3);
            lemma_grew_twice(types, c, m1, c1, m2, c2);
            lemma_grew_twice(types, c, m2, c2, m3, c3);
            if inside_any(m, parameters, v, c) {
                law_replaces_every_variable_of_all(d, parameters, types, c, v, m);
            } else if inside(m, *return_type, v, c) {
                lemma_inside_grows(m, *return_type, v, c, c1);
                law_replaces_every_variable(d, *return_type, m1, c1, v, m);
            } else if inside(m, *environment, v, c) {
                lemma_inside_grows(m, *environment, v, c, c2);
                law_replaces_every_variable(d, *environment, m2, c2, v, m);
            } else {
                lemma_inside_grows(m, *effects, v, c, c3);
                law_replaces_every_variable(d, *effects, m3, c3, v, m);
            }
        },
        Ty::Ref { sharedness, mutability, lifetime } => {
            let (_, m1, c1) = replace(d, *mutability, types, c)->0;
            let (_, m2, c2) = replace(d, *sharedness, m1, c1)->0;
            let (_, m3, c3) = replace(d, *lifetime, m2, c2)->0;
            lemma_replace_grows(d, *lifetime, m2, c2);
            lemma_replace_grows(d, *sharedness, m1, c1);
            law_replace_is_fresh(d, *mutability, types, c);
            law_replace_is_fresh(d, *sharedness, m1, c1);
            law_replace_is_fresh(d, *lifetime, m2, c2);
            lemma_grew_twice(types, c, m1, c1, m2, c2);
            if inside(m, *mutability, v, c) {
                law_replaces_every_variable(d, *mutability, types, c, v, m);
            } else if inside(m, *sharedness, v, c) {
                lemma_inside_grows(m, *sharedness, v, c, c1);
                law_replaces_every_variable(d, *sharedness, m1, c1, v, m);
            } else {
                lemma_inside_grows(m, *lifetime, v, c, c2);
                law_replaces_every_variable(d, *lifetime, m2, c2, v, m);
            }
        },
        Ty::Application(constructor, args) => {
            let (_, m1, c1) = replace(d, *constructor, types, c)->0;
            lemma_replace_seq_grows(d, args, m1, c1);
            law_replace_is_fresh(d, *constructor, types, c);
            law_replace_all_is_fresh(d, args, m1, c1);
            if inside(m, *constructor, v, c) {
                law_replaces_every_variable(d, *constructor, types, c, v, m);
            } else {
                lemma_inside_any_grows(m, args, v, c, c1);
                law_replaces_every_variable_of_all(d, args, m1, c1, v, m);
            }
        },
        Ty::Struct(_, fields, rest) => match lookup(c.type_bindings, rest) {
            Some(Binding::Bound(b)) => law_replaces_every_variable(d, b, types, c, v, m),
            _ => {
                let (x, m1, c1) = replace_variable(d, rest, types, c)->0;
                lemma_replace_seq_grows(d, fields, m1, c1);
                lemma_replace_variable_is_fresh(d, rest, types, c);
                law_replace_all_is_fresh(d, fields, m1, c1);
                if inside_variable(m, rest, v, c) {
                    lemma_replaces_variable(d, rest, types, c, v, m);
                } else {
                    lemma_inside_any_grows(m, fields, v, c, c1);
                    law_replaces_every_variable_of_all(d, fields, m1, c1, v, m);
                }
            },
        },
        Ty::Effect(_, args) => law_replaces_every_variable_of_all(d, args, types, c, v, m),
        Ty::Effects(effects, extension) => {
            let (_, m1, c1) = replace_seq(d, effects, types, c)->0;
            if let Some(w) = extension {
                lemma_replace_variable_grows(d, w, m1, c1);
                lemma_replace_variable_is_fresh(d, w, m1, c1);
            }
            law_replace_all_is_fresh(d, effects, types, c);
            if inside_any(m, effects, v, c) {
                law_replaces_every_variable_of_all(d, effects, types, c, v, m);
            } else if let Some(w) = extension {
                lemma_inside_variable_grows(m, w, v, c, c1);
                lemma_replaces_variable(d, w, m1, c1, v, m);
            }
        },
        _ => {},
    }
}

/// The same holds of replacing all the variables of several types.
pub proof fn law_replaces_every_variable_of_all(
    depth: nat,
    ts: Seq<Ty>,
    types: Map<usize, Ty>,
    c: Cache,
    v: TypeVariableId,
    n: nat,
)
    requires
        replace_seq(depth, ts, types, c) is Some,
        fits(replace_seq(depth, ts, types, c)->0),
        only_variables(types),
        inside_any(n, ts, v, c),
    ensures
        (replace_seq(depth, ts, types, c)->0).1.contains_key(v.0),
    decreases depth, 1nat, ts.len(),
{
    let i = choose|i: int| 0 <= i < ts.len() && inside(n, #[trigger] ts[i], v, c);
    let (_, m1, c1) = replace(depth, ts[0], types, c)->0;
    let rest = ts.skip(1);
    lemma_replace_seq_grows(depth, rest, m1, c1);
    law_replace_is_fresh(depth, ts[0], types, c);
    law_replace_all_is_fresh(depth, rest, m1, c1);
    if i == 0 {
        law_replaces_every_variable(depth, ts[0], types, c, v, n);
    } else {
        lemma_inside_grows(n, ts[i], v, c, c1);
        assert(rest[i - 1] == ts[i]);
        law_replaces_every_variable_of_all(depth, rest, m1, c1, v, n);
    }
}

proof fn lemma_replaces_variable(
    depth: nat,
    w: TypeVariableId,
    types: Map<usize, Ty>,
    c: Cache,
    v: TypeVariableId,
    n: nat,
)
    requires
        replace_variable(depth, w, types, c) is Some,
        fits(replace_variable(depth, w, types, c)->0),
        only_variables(types),
        inside_variable(n, w, v, c),
    ensures
        (replace_variable(depth, w, types, c)->0).1.contains_key(v.0),
    decreases depth, 1nat, 0nat,
{
    if let Some(Binding::Bound(b)) = lookup(c.type_bindings, w) {
        law_replaces_every_variable(depth, b, types, c, v, n);
    }
}

} // verus!
