//! What is collected from a type: exactly the variables inside it.

use crate::cache::{lookup, Binding, Cache, Scheme};
use crate::contains::{holds_any, law_contains_reaches, law_reaches_contains};
use crate::occurs_laws::{reaches, reaches_through};
use crate::resolve::MAX_DEPTH;
use crate::types::{Ty, TypeVariableId};
use crate::typevars::{
    all_vars, ascending, generalization, is_polymorphic, join, law_sorted_ids, vars_in, vars_in_seq,
    vars_in_variable,
};
use crate::unify::RECURSION_LIMIT;
use vstd::prelude::*;

verus! {

/// Whether the unbound variable `v` stands inside the type, fewer than `n` steps away. A row whose
/// variable is bound stands for what the variable is bound to.
pub open spec fn inside(n: nat, t: Ty, v: TypeVariableId, c: Cache) -> bool
    decreases n, 0nat,
{
    if n == 0 {
        false
    } else {
        let m = (n - 1) as nat;
        match t {
            Ty::Primitive(_) => false,
            Ty::UserDefined(_) => false,
            Ty::Tag(_) => false,
            Ty::Variable(w) => inside_variable(m, w, v, c),
            Ty::NamedGeneric(w, _) => inside_variable(m, w, v, c),
            Ty::Function { parameters, return_type, environment, effects, has_varargs } => {
                ||| inside_any(m, parameters, v, c)
                ||| inside(m, *environment, v, c)
                ||| inside(m, *return_type, v, c)
                ||| inside(m, *effects, v, c)
            },
            Ty::Application(constructor, args) => {
                ||| inside(m, *constructor, v, c)
                ||| inside_any(m, args, v, c)
            },
            Ty::Ref { sharedness, mutability, lifetime } => {
                ||| inside(m, *mutability, v, c)
                ||| inside(m, *sharedness, v, c)
                ||| inside(m, *lifetime, v, c)
            },
            Ty::Struct(_, types, rest) => match lookup(c.type_bindings, rest) {
                Some(Binding::Bound(b)) => inside(m, b, v, c),
                _ => inside_variable(m, rest, v, c) || inside_any(m, types, v, c),
            },
            Ty::Effect(_, args) => inside_any(m, args, v, c),
            Ty::Effects(effects, extension) => {
                ||| inside_any(m, effects, v, c)
                ||| (extension matches Some(w) && inside_variable(m, w, v, c))
            },
        }
    }
}

/// Whether the unbound variable `v` stands inside any of the types.
pub open spec fn inside_any(n: nat, ts: Seq<Ty>, v: TypeVariableId, c: Cache) -> bool
    decreases n, 1nat,
{
    exists|i: int| 0 <= i < ts.len() && inside(n, #[trigger] ts[i], v, c)
}

/// Whether the unbound variable `v` is `w`, or stands inside the binding of `w`.
pub open spec fn inside_variable(n: nat, w: TypeVariableId, v: TypeVariableId, c: Cache) -> bool
    decreases n, 1nat,
{
    match lookup(c.type_bindings, w) {
        None => false,
        Some(Binding::Bound(b)) => inside(n, b, v, c),
        Some(Binding::Unbound(_, _)) => w == v,
    }
}

/// Whether the variable is one to collect: unbound, and polymorphic if only such are asked for.
pub open spec fn is_wanted(v: TypeVariableId, only: bool, c: Cache) -> bool {
    lookup(c.type_bindings, v) matches Some(Binding::Unbound(level, _)) && (only ==> is_polymorphic(
        level,
        c,
    ))
}

proof fn lemma_concat<A>(a: Seq<A>, b: Seq<A>, x: A)
    ensures
        (a + b).contains(x) <==> a.contains(x) || b.contains(x),
{
    if a.contains(x) {
        let i = choose|i: int| 0 <= i < a.len() && a[i] == x;
        assert((a + b)[i] == x);
    }
    if b.contains(x) {
        let i = choose|i: int| 0 <= i < b.len() && b[i] == x;
        assert((a + b)[a.len() + i] == x);
    }
}

/// Every variable collected stands inside the type, and is one to collect.
pub proof fn law_collected_is_inside(
    depth: nat,
    fuel: nat,
    t: Ty,
    only: bool,
    c: Cache,
    v: TypeVariableId,
)
    requires
        vars_in(depth, fuel, t, only, c) matches Some(found) && found.contains(v),
    ensures
        inside(depth, t, v, c),
        is_wanted(v, only, c),
    decreases depth, 0nat, 0nat,
{
    let d = (depth - 1) as nat;
    match t {
        Ty::Variable(w) => lemma_variable_is_inside(d, fuel, w, only, c, v),
        Ty::NamedGeneric(w, _) => lemma_variable_is_inside(d, fuel, w, only, c, v),
        Ty::Function { parameters, return_type, environment, effects, .. } => {
            let p = vars_in_seq(d, fuel, parameters, only, c)->0;
            let e = vars_in(d, fuel, *environment, only, c)->0;
            let r = vars_in(d, fuel, *return_type, only, c)->0;
            let x = vars_in(d, fuel, *effects, only, c)->0;
            lemma_concat(p, e, v);
            lemma_concat(p + e, r, v);
            lemma_concat(p + e + r, x, v);
            if p.contains(v) {
                lemma_seq_is_inside(d, fuel, parameters, only, c, v);
            } else if e.contains(v) {
                law_collected_is_inside(d, fuel, *environment, only, c, v);
            } else if r.contains(v) {
                law_collected_is_inside(d, fuel, *return_type, only, c, v);
            } else {
                law_collected_is_inside(d, fuel, *effects, only, c, v);
            }
        },
        Ty::Application(constructor, args) => {
            let a = vars_in(d, fuel, *constructor, only, c)->0;
            let b = vars_in_seq(d, fuel, args, only, c)->0;
            lemma_concat(a, b, v);
            if a.contains(v) {
                law_collected_is_inside(d, fuel, *constructor, only, c, v);
            } else {
                lemma_seq_is_inside(d, fuel, args, only, c, v);
            }
        },
        Ty::Ref { sharedness, mutability, lifetime } => {
            let a = vars_in(d, fuel, *mutability, only, c)->0;
            let b = vars_in(d, fuel, *sharedness, only, c)->0;
            let l = vars_in(d, fuel, *lifetime, only, c)->0;
            lemma_concat(a, b, v);
            lemma_concat(a + b, l, v);
            if a.contains(v) {
                law_collected_is_inside(d, fuel, *mutability, only, c, v);
            } else if b.contains(v) {
                law_collected_is_inside(d, fuel, *sharedness, only, c, v);
            } else {
                law_collected_is_inside(d, fuel, *lifetime, only, c, v);
            }
        },
        Ty::Struct(_, types, rest) => match lookup(c.type_bindings, rest) {
            Some(Binding::Bound(b)) => law_collected_is_inside(d, fuel, b, only, c, v),
            _ => {
                let a = vars_in_variable(d, fuel, rest, only, c)->0;
                let b = vars_in_seq(d, fuel, types, only, c)->0;
                lemma_concat(a, b, v);
                if a.contains(v) {
                    lemma_variable_is_inside(d, fuel, rest, only, c, v);
                } else {
                    lemma_seq_is_inside(d, fuel, types, only, c, v);
                }
            },
        },
        Ty::Effect(_, args) => lemma_seq_is_inside(d, fuel, args, only, c, v),
        Ty::Effects(effects, extension) => {
            let a = vars_in_seq(d, fuel, effects, only, c)->0;
            match extension {
                None => lemma_seq_is_inside(d, fuel, effects, only, c, v),
                Some(w) => {
                    let b = vars_in_variable(d, fuel, w, only, c)->0;
                    lemma_concat(a, b, v);
                    if a.contains(v) {
                        lemma_seq_is_inside(d, fuel, effects, only, c, v);
                    } else {
                        lemma_variable_is_inside(d, fuel, w, only, c, v);
                    }
                },
            }
        },
        _ => {},
    }
}

proof fn lemma_seq_is_inside(
    depth: nat,
    fuel: nat,
    ts: Seq<Ty>,
    only: bool,
    c: Cache,
    v: TypeVariableId,
)
    requires
        vars_in_seq(depth, fuel, ts, only, c) matches Some(found) && found.contains(v),
    ensures
        inside_any(depth, ts, v, c),
        is_wanted(v, only, c),
    decreases depth, 1nat, ts.len(),
{
    if ts.len() > 0 {
        let a = vars_in_seq(depth, fuel, ts.drop_last(), only, c)->0;
        let b = vars_in(depth, fuel, ts.last(), only, c)->0;
        lemma_concat(a, b, v);
        if a.contains(v) {
            lemma_seq_is_inside(depth, fuel, ts.drop_last(), only, c, v);
            let i = choose|i: int|
                0 <= i < ts.drop_last().len() && inside(depth, #[trigger] ts.drop_last()[i], v, c);
            assert(ts[i] == ts.drop_last()[i]);
        } else {
            law_collected_is_inside(depth, fuel, ts.last(), only, c, v);
            assert(ts[ts.len() - 1] == ts.last());
        }
    }
}

proof fn lemma_variable_is_inside(
    depth: nat,
    fuel: nat,
    w: TypeVariableId,
    only: bool,
    c: Cache,
    v: TypeVariableId,
)
    requires
        vars_in_variable(depth, fuel, w, only, c) matches Some(found) && found.contains(v),
    ensures
        inside_variable(depth, w, v, c),
        is_wanted(v, only, c),
    decreases depth, 1nat, 0nat,
{
    if let Some(Binding::Bound(b)) = lookup(c.type_bindings, w) {
        law_collected_is_inside(depth, (fuel - 1) as nat, b, only, c, v);
    }
}

/// Every variable inside the type that is one to collect is collected.
pub proof fn law_inside_is_collected(
    depth: nat,
    fuel: nat,
    t: Ty,
    only: bool,
    c: Cache,
    v: TypeVariableId,
    n: nat,
)
    requires
        vars_in(depth, fuel, t, only, c) is Some,
        inside(n, t, v, c),
        is_wanted(v, only, c),
    ensures
        vars_in(depth, fuel, t, only, c)->0.contains(v),
    decreases depth, 0nat, 0nat,
{
    let d = (depth - 1) as nat;
    let m = (n - 1) as nat;
    match t {
        Ty::Variable(w) => lemma_inside_variable_is_collected(d, fuel, w, only, c, v, m),
        Ty::NamedGeneric(w, _) => lemma_inside_variable_is_collected(d, fuel, w, only, c, v, m),
        Ty::Function { parameters, return_type, environment, effects, .. } => {
            let p = vars_in_seq(d, fuel, parameters, only, c)->0;
            let e = vars_in(d, fuel, *environment, only, c)->0;
            let r = vars_in(d, fuel, *return_type, only, c)->0;
            let x = vars_in(d, fuel, *effects, only, c)->0;
            lemma_concat(p, e, v);
            lemma_concat(p + e, r, v);
            lemma_concat(p + e + r, x, v);
            if inside_any(m, parameters, v, c) {
                lemma_inside_any_is_collected(d, fuel, parameters, only, c, v, m);
            } else if inside(m, *environment, v, c) {
                law_inside_is_collected(d, fuel, *environment, only, c, v, m);
            } else if inside(m, *return_type, v, c) {
                law_inside_is_collected(d, fuel, *return_type, only, c, v, m);
            } else {
                law_inside_is_collected(d, fuel, *effects, only, c, v, m);
            }
        },
        Ty::Application(constructor, args) => {
            let a = vars_in(d, fuel, *constructor, only, c)->0;
            let b = vars_in_seq(d, fuel, args, only, c)->0;
            lemma_concat(a, b, v);
            if inside(m, *constructor, v, c) {
                law_inside_is_collected(d, fuel, *constructor, only, c, v, m);
            } else {
                lemma_inside_any_is_collected(d, fuel, args, only, c, v, m);
            }
        },
        Ty::Ref { sharedness, mutability, lifetime } => {
            let a = vars_in(d, fuel, *mutability, only, c)->0;
            let b = vars_in(d, fuel, *sharedness, only, c)->0;
            let l = vars_in(d, fuel, *lifetime, only, c)->0;
            lemma_concat(a, b, v);
            lemma_concat(a + b, l, v);
            if inside(m, *mutability, v, c) {
                law_inside_is_collected(d, fuel, *mutability, only, c, v, m);
            } else if inside(m, *sharedness, v, c) {
                law_inside_is_collected(d, fuel, *sharedness, only, c, v, m);
            } else {
                law_inside_is_collected(d, fuel, *lifetime, only, c, v, m);
            }
        },
        Ty::Struct(_, types, rest) => match lookup(c.type_bindings, rest) {
            Some(Binding::Bound(b)) => law_inside_is_collected(d, fuel, b, only, c, v, m),
            _ => {
                let a = vars_in_variable(d, fuel, rest, only, c)->0;
                let b = vars_in_seq(d, fuel, types, only, c)->0;
                lemma_concat(a, b, v);
                if inside_variable(m, rest, v, c) {
                    lemma_inside_variable_is_collected(d, fuel, rest, only, c, v, m);
                } else {
                    lemma_inside_any_is_collected(d, fuel, types, only, c, v, m);
                }
            },
        },
        Ty::Effect(_, args) => lemma_inside_any_is_collected(d, fuel, args, only, c, v, m),
        Ty::Effects(effects, extension) => {
            let a = vars_in_seq(d, fuel, effects, only, c)->0;
            match extension {
                None => lemma_inside_any_is_collected(d, fuel, effects, only, c, v, m),
                Some(w) => {
                    let b = vars_in_variable(d, fuel, w, only, c)->0;
                    lemma_concat(a, b, v);
                    if inside_any(m, effects, v, c) {
                        lemma_inside_any_is_collected(d, fuel, effects, only, c, v, m);
                    } else {
                        lemma_inside_variable_is_collected(d, fuel, w, only, c, v, m);
                    }
                },
            }
        },
        _ => {},
    }
}

proof fn lemma_inside_any_is_collected(
    depth: nat,
    fuel: nat,
    ts: Seq<Ty>,
    only: bool,
    c: Cache,
    v: TypeVariableId,
    n: nat,
)
    requires
        vars_in_seq(depth, fuel, ts, only, c) is Some,
        inside_any(n, ts, v, c),
        is_wanted(v, only, c),
    ensures
        vars_in_seq(depth, fuel, ts, only, c)->0.contains(v),
    decreases depth, 1nat, ts.len(),
{
    let i = choose|i: int| 0 <= i < ts.len() && inside(n, #[trigger] ts[i], v, c);
    let a = vars_in_seq(depth, fuel, ts.drop_last(), only, c)->0;
    let b = vars_in(depth, fuel, ts.last(), only, c)->0;
    lemma_concat(a, b, v);
    if i == ts.len() - 1 {
        law_inside_is_collected(depth, fuel, ts.last(), only, c, v, n);
    } else {
        assert(ts.drop_last()[i] == ts[i]);
        lemma_inside_any_is_collected(depth, fuel, ts.drop_last(), only, c, v, n);
    }
}

proof fn lemma_inside_variable_is_collected(
    depth: nat,
    fuel: nat,
    w: TypeVariableId,
    only: bool,
    c: Cache,
    v: TypeVariableId,
    n: nat,
)
    requires
        vars_in_variable(depth, fuel, w, only, c) is Some,
        inside_variable(n, w, v, c),
        is_wanted(v, only, c),
    ensures
        vars_in_variable(depth, fuel, w, only, c)->0.contains(v),
    decreases depth, 1nat, 0nat,
{
    match lookup(c.type_bindings, w) {
        Some(Binding::Bound(b)) => {
            law_inside_is_collected(depth, (fuel - 1) as nat, b, only, c, v, n);
        },
        _ => {
            assert(seq![w][0] == v);
        },
    }
}

/// The variables that a type is generic over.
pub open spec fn quantified(scheme: Scheme) -> Seq<TypeVariableId> {
    match scheme {
        Scheme::Mono(_) => Seq::empty(),
        Scheme::Poly(vars, _) => vars,
    }
}

/// A type is generalized over exactly the variables inside it whose level is the current one or a
/// higher one, each of them once and in the order of their ids.
pub proof fn law_generalizes_exactly(t: Ty, c: Cache, v: TypeVariableId, n: nat)
    requires
        generalization(t, c) is Some,
    ensures
        generalization(t, c)->0.body() == t,
        ascending(quantified(generalization(t, c)->0)),
        quantified(generalization(t, c)->0).contains(v) ==> inside(MAX_DEPTH as nat, t, v, c)
            && is_wanted(v, true, c),
        inside(n, t, v, c) && is_wanted(v, true, c) ==> quantified(
            generalization(t, c)->0,
        ).contains(v),
{
    let depth = MAX_DEPTH as nat;
    let fuel = RECURSION_LIMIT as nat;
    let found = all_vars(t, true, c)->0;
    law_sorted_ids(found);
    if quantified(generalization(t, c)->0).contains(v) {
        law_collected_is_inside(depth, fuel, t, true, c, v);
    }
    if inside(n, t, v, c) && is_wanted(v, true, c) {
        law_inside_is_collected(depth, fuel, t, true, c, v, n);
        let i = choose|i: int| 0 <= i < found.len() && found[i] == v;
        assert(found.len() > 0);
    }
}

/// A variable that stands inside a type can be reached from it.
pub proof fn law_inside_is_reached(n: nat, t: Ty, v: TypeVariableId, c: Cache)
    requires
        inside(n, t, v, c),
    ensures
        reaches(n, t, v, Map::empty(), c.type_bindings),
    decreases n, 0nat,
{
    let m = (n - 1) as nat;
    match t {
        Ty::Variable(w) => lemma_inside_variable_is_reached(m, w, v, c),
        Ty::NamedGeneric(w, _) => lemma_inside_variable_is_reached(m, w, v, c),
        Ty::Function { parameters, return_type, environment, effects, .. } => {
            if inside_any(m, parameters, v, c) {
                lemma_inside_any_is_reached(m, parameters, v, c);
            } else if inside(m, *environment, v, c) {
                law_inside_is_reached(m, *environment, v, c);
            } else if inside(m, *return_type, v, c) {
                law_inside_is_reached(m, *return_type, v, c);
            } else {
                law_inside_is_reached(m, *effects, v, c);
            }
        },
        Ty::Application(constructor, args) => {
            if inside(m, *constructor, v, c) {
                law_inside_is_reached(m, *constructor, v, c);
            } else {
                lemma_inside_any_is_reached(m, args, v, c);
            }
        },
        Ty::Ref { sharedness, mutability, lifetime } => {
            if inside(m, *mutability, v, c) {
                law_inside_is_reached(m, *mutability, v, c);
            } else if inside(m, *sharedness, v, c) {
                law_inside_is_reached(m, *sharedness, v, c);
            } else {
                law_inside_is_reached(m, *lifetime, v, c);
            }
        },
        Ty::Struct(_, types, rest) => {
            if inside_variable(m, rest, v, c) {
                lemma_inside_variable_is_reached(m, rest, v, c);
            } else {
                lemma_inside_any_is_reached(m, types, v, c);
            }
        },
        Ty::Effect(_, args) => lemma_inside_any_is_reached(m, args, v, c),
        Ty::Effects(effects, extension) => {
            if inside_any(m, effects, v, c) {
                lemma_inside_any_is_reached(m, effects, v, c);
            } else if let Some(w) = extension {
                lemma_inside_variable_is_reached(m, w, v, c);
            }
        },
        _ => {},
    }
}

proof fn lemma_inside_any_is_reached(n: nat, ts: Seq<Ty>, v: TypeVariableId, c: Cache)
    requires
        inside_any(n, ts, v, c),
    ensures
        exists|i: int|
            0 <= i < ts.len() && reaches(n, #[trigger] ts[i], v, Map::empty(), c.type_bindings),
    decreases n, 1nat,
{
    let i = choose|i: int| 0 <= i < ts.len() && inside(n, #[trigger] ts[i], v, c);
    law_inside_is_reached(n, ts[i], v, c);
}

proof fn lemma_inside_variable_is_reached(n: nat, w: TypeVariableId, v: TypeVariableId, c: Cache)
    requires
        inside_variable(n, w, v, c),
    ensures
        reaches_through(n, w, v, Map::empty(), c.type_bindings),
    decreases n, 1nat,
{
    if let Some(Binding::Bound(b)) = lookup(c.type_bindings, w) {
        law_inside_is_reached(n, b, v, c);
    }
}

/// A type holds none of the variables in a list only if no variable collected from it is listed.
pub proof fn law_collected_is_contained(
    depth: nat,
    fuel: nat,
    t: Ty,
    only: bool,
    c: Cache,
    v: TypeVariableId,
    list: Seq<TypeVariableId>,
    search_depth: nat,
)
    requires
        vars_in(depth, fuel, t, only, c) matches Some(found) && found.contains(v),
        holds_any(search_depth, t, list, c.type_bindings) == Some(false),
    ensures
        !list.contains(v),
{
    law_collected_is_inside(depth, fuel, t, only, c, v);
    law_inside_is_reached(depth, t, v, c);
    law_reaches_contains(search_depth, t, list, c.type_bindings, depth, v);
}

/// Whether the variable of every row that the type itself holds is unbound.
pub open spec fn rows_open(t: Ty, vars: Seq<Binding>) -> bool
    decreases t,
{
    match t {
        Ty::Function { parameters, return_type, environment, effects, has_varargs } => {
            &&& forall|i: int|
                0 <= i < parameters.len() ==> rows_open(#[trigger] parameters[i], vars)
            &&& rows_open(*return_type, vars)
            &&& rows_open(*environment, vars)
            &&& rows_open(*effects, vars)
        },
        Ty::Application(constructor, args) => {
            &&& rows_open(*constructor, vars)
            &&& forall|i: int| 0 <= i < args.len() ==> rows_open(#[trigger] args[i], vars)
        },
        Ty::Ref { sharedness, mutability, lifetime } => {
            &&& rows_open(*sharedness, vars)
            &&& rows_open(*mutability, vars)
            &&& rows_open(*lifetime, vars)
        },
        Ty::Struct(_, fields, rest) => {
            &&& !(lookup(vars, rest) matches Some(Binding::Bound(_)))
            &&& forall|i: int| 0 <= i < fields.len() ==> rows_open(#[trigger] fields[i], vars)
        },
        Ty::Effect(_, args) => forall|i: int|
            0 <= i < args.len() ==> rows_open(#[trigger] args[i], vars),
        Ty::Effects(effects, _) => forall|i: int|
            0 <= i < effects.len() ==> rows_open(#[trigger] effects[i], vars),
        _ => true,
    }
}

/// Whether the same holds of every type that the cache binds a variable to.
pub open spec fn cached_rows_open(vars: Seq<Binding>) -> bool {
    forall|i: int|
        0 <= i < vars.len() && (#[trigger] vars[i]) is Bound ==> rows_open(vars[i]->Bound_0, vars)
}

/// A variable that can be reached from a type is unbound and stands inside it, where no row was
/// bound. A row whose
/// variable is bound stands for what that is bound to, whereas its fields are reached all the same.
pub proof fn law_reached_is_inside(n: nat, t: Ty, v: TypeVariableId, c: Cache)
    requires
        reaches(n, t, v, Map::empty(), c.type_bindings),
        rows_open(t, c.type_bindings),
        cached_rows_open(c.type_bindings),
    ensures
        inside(n, t, v, c),
        is_wanted(v, false, c),
    decreases n, 0nat,
{
    let none = Map::<usize, Ty>::empty();
    let vars = c.type_bindings;
    let m = (n - 1) as nat;
    match t {
        Ty::Variable(w) => lemma_reached_is_inside_variable(m, w, v, c),
        Ty::NamedGeneric(w, _) => lemma_reached_is_inside_variable(m, w, v, c),
        Ty::Function { parameters, return_type, environment, effects, .. } => {
            if reaches(m, *return_type, v, none, vars) {
                law_reached_is_inside(m, *return_type, v, c);
            } else if reaches(m, *environment, v, none, vars) {
                law_reached_is_inside(m, *environment, v, c);
            } else if reaches(m, *effects, v, none, vars) {
                law_reached_is_inside(m, *effects, v, c);
            } else {
                lemma_reached_is_inside_any(m, parameters, v, c);
            }
        },
        Ty::Application(constructor, args) => {
            if reaches(m, *constructor, v, none, vars) {
                law_reached_is_inside(m, *constructor, v, c);
            } else {
                lemma_reached_is_inside_any(m, args, v, c);
            }
        },
        Ty::Ref { sharedness, mutability, lifetime } => {
            if reaches(m, *sharedness, v, none, vars) {
                law_reached_is_inside(m, *sharedness, v, c);
            } else if reaches(m, *mutability, v, none, vars) {
                law_reached_is_inside(m, *mutability, v, c);
            } else {
                law_reached_is_inside(m, *lifetime, v, c);
            }
        },
        Ty::Struct(_, fields, rest) => {
            if reaches_through(m, rest, v, none, vars) {
                lemma_reached_is_inside_variable(m, rest, v, c);
            } else {
                lemma_reached_is_inside_any(m, fields, v, c);
            }
        },
        Ty::Effect(_, args) => lemma_reached_is_inside_any(m, args, v, c),
        Ty::Effects(effects, extension) => {
            if exists|i: int|
                0 <= i < effects.len() && reaches(m, #[trigger] effects[i], v, none, vars) {
                lemma_reached_is_inside_any(m, effects, v, c);
            } else if let Some(w) = extension {
                lemma_reached_is_inside_variable(m, w, v, c);
            }
        },
        _ => {},
    }
}

proof fn lemma_reached_is_inside_any(n: nat, ts: Seq<Ty>, v: TypeVariableId, c: Cache)
    requires
        exists|i: int|
            0 <= i < ts.len() && reaches(n, #[trigger] ts[i], v, Map::empty(), c.type_bindings),
        forall|i: int| 0 <= i < ts.len() ==> rows_open(#[trigger] ts[i], c.type_bindings),
        cached_rows_open(c.type_bindings),
    ensures
        inside_any(n, ts, v, c),
        is_wanted(v, false, c),
    decreases n, 1nat,
{
    let i = choose|i: int|
        0 <= i < ts.len() && reaches(n, #[trigger] ts[i], v, Map::empty(), c.type_bindings);
    law_reached_is_inside(n, ts[i], v, c);
}

proof fn lemma_reached_is_inside_variable(n: nat, w: TypeVariableId, v: TypeVariableId, c: Cache)
    requires
        reaches_through(n, w, v, Map::empty(), c.type_bindings),
        cached_rows_open(c.type_bindings),
    ensures
        inside_variable(n, w, v, c),
        is_wanted(v, false, c),
    decreases n, 1nat,
{
    if let Some(Binding::Bound(b)) = lookup(c.type_bindings, w) {
        assert(c.type_bindings[w.0 as int] is Bound);
        law_reached_is_inside(n, b, v, c);
    }
}

/// A type contains one of the variables in a list exactly if one of the variables collected from
/// it is listed, where no row was bound.
pub proof fn law_contains_what_is_collected(t: Ty, list: Seq<TypeVariableId>, c: Cache)
    requires
        holds_any(MAX_DEPTH as nat, t, list, c.type_bindings) is Some,
        all_vars(t, false, c) is Some,
        rows_open(t, c.type_bindings),
        cached_rows_open(c.type_bindings),
    ensures
        holds_any(MAX_DEPTH as nat, t, list, c.type_bindings) == Some(true)
            <==> exists|v: TypeVariableId| #[trigger]
            list.contains(v) && all_vars(t, false, c)->0.contains(v),
{
    let depth = MAX_DEPTH as nat;
    let fuel = RECURSION_LIMIT as nat;
    let vars = c.type_bindings;
    let none = Map::<usize, Ty>::empty();
    if holds_any(depth, t, list, vars) == Some(true) {
        law_contains_reaches(depth, t, list, vars);
        let v = choose|v: TypeVariableId|
            list.contains(v) && #[trigger] reaches(depth, t, v, none, vars);
        law_reached_is_inside(depth, t, v, c);
        law_inside_is_collected(depth, fuel, t, false, c, v, depth);
    } else if exists|v: TypeVariableId| #[trigger]
        list.contains(v) && all_vars(t, false, c)->0.contains(v) {
        let v = choose|v: TypeVariableId| #[trigger]
            list.contains(v) && all_vars(t, false, c)->0.contains(v);
        let held = holds_any(depth, t, list, vars)->0;
        assert(holds_any(depth, t, list, vars) == Some(held));
        law_collected_is_contained(depth, fuel, t, false, c, v, list, depth);
    }
}

/// Those of the variables that are polymorphic, in the same order.
pub open spec fn polymorphic_ones(ids: Seq<TypeVariableId>, c: Cache) -> Seq<TypeVariableId>
    decreases ids.len(),
{
    if ids.len() == 0 {
        Seq::empty()
    } else {
        let before = polymorphic_ones(ids.drop_last(), c);
        if is_wanted(ids.last(), true, c) {
            before.push(ids.last())
        } else {
            before
        }
    }
}

/// Those of optional variables that are polymorphic.
pub open spec fn only_polymorphic(ids: Option<Seq<TypeVariableId>>, c: Cache) -> Option<
    Seq<TypeVariableId>,
> {
    match ids {
        Some(list) => Some(polymorphic_ones(list, c)),
        None => None,
    }
}

proof fn lemma_polymorphic_joined(a: Seq<TypeVariableId>, b: Seq<TypeVariableId>, c: Cache)
    ensures
        polymorphic_ones(a + b, c) == polymorphic_ones(a, c) + polymorphic_ones(b, c),
    decreases b.len(),
{
    if b.len() == 0 {
        assert(a + b =~= a);
        assert(polymorphic_ones(a, c) + polymorphic_ones(b, c) =~= polymorphic_ones(a, c));
    } else {
        lemma_polymorphic_joined(a, b.drop_last(), c);
        assert((a + b).drop_last() =~= a + b.drop_last());
        assert((a + b).last() == b.last());
        assert(polymorphic_ones(a + b, c) =~= polymorphic_ones(a, c) + polymorphic_ones(b, c));
    }
}

proof fn lemma_only_joined(
    a: Option<Seq<TypeVariableId>>,
    b: Option<Seq<TypeVariableId>>,
    c: Cache,
)
    ensures
        only_polymorphic(join(a, b), c) == join(only_polymorphic(a, c), only_polymorphic(b, c)),
{
    if let (Some(x), Some(y)) = (a, b) {
        lemma_polymorphic_joined(x, y, c);
    }
}

/// Collecting only the polymorphic variables gives those of all the variables that are polymorphic,
/// in the same order and as often, and is defined in the same cases.
pub proof fn law_collects_only_polymorphic(depth: nat, fuel: nat, t: Ty, c: Cache)
    ensures
        vars_in(depth, fuel, t, true, c) == only_polymorphic(vars_in(depth, fuel, t, false, c), c),
    decreases depth, 0nat, 0nat,
{
    if depth > 0 {
        let d = (depth - 1) as nat;
        match t {
            Ty::Variable(id) | Ty::NamedGeneric(id, _) => {
                lemma_collects_only_of_variable(d, fuel, id, c);
            },
            Ty::Function { parameters, return_type, environment, effects, .. } => {
                lemma_collects_only_of_all(d, fuel, parameters, c);
                law_collects_only_polymorphic(d, fuel, *environment, c);
                law_collects_only_polymorphic(d, fuel, *return_type, c);
                law_collects_only_polymorphic(d, fuel, *effects, c);
                let p = vars_in_seq(d, fuel, parameters, false, c);
                let env = vars_in(d, fuel, *environment, false, c);
                let ret = vars_in(d, fuel, *return_type, false, c);
                lemma_only_joined(p, env, c);
                lemma_only_joined(join(p, env), ret, c);
                lemma_only_joined(
                    join(join(p, env), ret),
                    vars_in(d, fuel, *effects, false, c),
                    c,
                );
            },
            Ty::Application(constructor, args) => {
                law_collects_only_polymorphic(d, fuel, *constructor, c);
                lemma_collects_only_of_all(d, fuel, args, c);
                lemma_only_joined(
                    vars_in(d, fuel, *constructor, false, c),
                    vars_in_seq(d, fuel, args, false, c),
                    c,
                );
            },
            Ty::Ref { sharedness, mutability, lifetime } => {
                law_collects_only_polymorphic(d, fuel, *mutability, c);
                law_collects_only_polymorphic(d, fuel, *sharedness, c);
                law_collects_only_polymorphic(d, fuel, *lifetime, c);
                let m = vars_in(d, fuel, *mutability, false, c);
                let s = vars_in(d, fuel, *sharedness, false, c);
                lemma_only_joined(m, s, c);
                lemma_only_joined(join(m, s), vars_in(d, fuel, *lifetime, false, c), c);
            },
            Ty::Struct(_, types, rest) => {
                match lookup(c.type_bindings, rest) {
                    Some(Binding::Bound(b)) => law_collects_only_polymorphic(d, fuel, b, c),
                    _ => {
                        lemma_collects_only_of_variable(d, fuel, rest, c);
                        lemma_collects_only_of_all(d, fuel, types, c);
                        lemma_only_joined(
                            vars_in_variable(d, fuel, rest, false, c),
                            vars_in_seq(d, fuel, types, false, c),
                            c,
                        );
                    },
                }
            },
            Ty::Effect(_, args) => lemma_collects_only_of_all(d, fuel, args, c),
            Ty::Effects(effects, extension) => {
                lemma_collects_only_of_all(d, fuel, effects, c);
                if let Some(id) = extension {
                    lemma_collects_only_of_variable(d, fuel, id, c);
                    lemma_only_joined(
                        vars_in_seq(d, fuel, effects, false, c),
                        vars_in_variable(d, fuel, id, false, c),
                        c,
                    );
                }
            },
            _ => {},
        }
    }
}

proof fn lemma_collects_only_of_all(depth: nat, fuel: nat, ts: Seq<Ty>, c: Cache)
    ensures
        vars_in_seq(depth, fuel, ts, true, c) == only_polymorphic(
            vars_in_seq(depth, fuel, ts, false, c),
            c,
        ),
    decreases depth, 1nat, ts.len(),
{
    if ts.len() > 0 {
        lemma_collects_only_of_all(depth, fuel, ts.drop_last(), c);
        law_collects_only_polymorphic(depth, fuel, ts.last(), c);
        lemma_only_joined(
            vars_in_seq(depth, fuel, ts.drop_last(), false, c),
            vars_in(depth, fuel, ts.last(), false, c),
            c,
        );
    }
}

proof fn lemma_collects_only_of_variable(depth: nat, fuel: nat, id: TypeVariableId, c: Cache)
    ensures
        vars_in_variable(depth, fuel, id, true, c) == only_polymorphic(
            vars_in_variable(depth, fuel, id, false, c),
            c,
        ),
    decreases depth, 1nat, 0nat,
{
    if fuel > 0 {
        match lookup(c.type_bindings, id) {
            Some(Binding::Bound(b)) => {
                law_collects_only_polymorphic(depth, (fuel - 1) as nat, b, c);
            },
            Some(Binding::Unbound(_, _)) => {
                let one = seq![id];
                assert(one.drop_last() =~= Seq::empty());
                assert(polymorphic_ones(one.drop_last(), c) =~= Seq::empty());
                assert(one.last() == id);
                assert(Seq::<TypeVariableId>::empty().push(id) =~= one);
            },
            None => {},
        }
    }
}

/// What `find_all_typevars` finds where only polymorphic variables are asked for is what it finds
/// otherwise, without the variables of a level below the current one.
pub proof fn law_finds_only_polymorphic(t: Ty, c: Cache)
    ensures
        all_vars(t, true, c) == only_polymorphic(all_vars(t, false, c), c),
{
    law_collects_only_polymorphic(MAX_DEPTH as nat, RECURSION_LIMIT as nat, t, c);
}

} // verus!
