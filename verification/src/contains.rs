//! Searching a type for any of a list of variables.

use crate::cache::{lookup, Binding, ModuleCache, TypeBinding};
use crate::occurs_laws::{reaches, reaches_through};
use crate::resolve::MAX_DEPTH;
use crate::types::{effect_tys, field_tys, tys, Effect, Field, Ty, Type, TypeVariableId};
use vstd::prelude::*;

verus! {

/// Two searches one after the other: the second counts only if the first found nothing.
pub open spec fn any_of(first: Option<bool>, second: Option<bool>) -> Option<bool> {
    match first {
        Some(false) => second,
        _ => first,
    }
}

/// Whether any of the listed variables is found inside the type, with bindings followed through
/// the cache. `None` if the search goes deeper than `depth` or leaves the cache.
pub open spec fn holds_any(
    depth: nat,
    t: Ty,
    list: Seq<TypeVariableId>,
    vars: Seq<Binding>,
) -> Option<bool>
    decreases depth, 0nat, 0nat,
{
    if depth == 0 {
        None
    } else {
        let d = (depth - 1) as nat;
        match t {
            Ty::Primitive(_) => Some(false),
            Ty::UserDefined(_) => Some(false),
            Ty::Tag(_) => Some(false),
            Ty::Variable(id) => variable_holds_any(d, id, list, vars),
            Ty::NamedGeneric(id, _) => variable_holds_any(d, id, list, vars),
            Ty::Function { parameters, return_type, environment, effects, has_varargs } => any_of(
                any_of(
                    any_of(
                        seq_holds_any(d, parameters, list, vars),
                        holds_any(d, *return_type, list, vars),
                    ),
                    holds_any(d, *environment, list, vars),
                ),
                holds_any(d, *effects, list, vars),
            ),
            Ty::Ref { sharedness, mutability, lifetime } => any_of(
                any_of(
                    holds_any(d, *mutability, list, vars),
                    holds_any(d, *sharedness, list, vars),
                ),
                holds_any(d, *lifetime, list, vars),
            ),
            Ty::Application(constructor, args) => any_of(
                holds_any(d, *constructor, list, vars),
                seq_holds_any(d, args, list, vars),
            ),
            Ty::Struct(_, types, rest) => any_of(
                variable_holds_any(d, rest, list, vars),
                seq_holds_any(d, types, list, vars),
            ),
            Ty::Effect(_, args) => seq_holds_any(d, args, list, vars),
            Ty::Effects(effects, extension) => match extension {
                None => seq_holds_any(d, effects, list, vars),
                Some(id) => any_of(
                    seq_holds_any(d, effects, list, vars),
                    variable_holds_any(d, id, list, vars),
                ),
            },
        }
    }
}

/// Whether any of the types holds one of the variables.
pub open spec fn seq_holds_any(
    depth: nat,
    ts: Seq<Ty>,
    list: Seq<TypeVariableId>,
    vars: Seq<Binding>,
) -> Option<bool>
    decreases depth, 1nat, ts.len(),
{
    if ts.len() == 0 {
        Some(false)
    } else {
        any_of(
            seq_holds_any(depth, ts.drop_last(), list, vars),
            holds_any(depth, ts.last(), list, vars),
        )
    }
}

/// Whether a variable is one of the listed ones, or is bound to a type that holds one.
pub open spec fn variable_holds_any(
    depth: nat,
    id: TypeVariableId,
    list: Seq<TypeVariableId>,
    vars: Seq<Binding>,
) -> Option<bool>
    decreases depth, 1nat, 0nat,
{
    match lookup(vars, id) {
        None => None,
        Some(Binding::Bound(b)) => holds_any(depth, b, list, vars),
        Some(Binding::Unbound(_, _)) => Some(list.contains(id)),
    }
}

/// `contains_any_typevars_from_list` for types of any shape.
pub fn contains_any_at(
    depth: u64,
    typ: &Type,
    list: &[TypeVariableId],
    cache: &ModuleCache,
) -> (r: Option<bool>)
    ensures
        r == holds_any(depth as nat, typ@, list@, cache@.type_bindings),
    decreases depth, 0nat,
{
    if depth == 0 {
        return None;
    }
    let d: u64 = depth - 1;
    match typ {
        Type::Primitive(_) => Some(false),
        Type::UserDefined(_) => Some(false),
        Type::Tag(_) => Some(false),
        Type::TypeVariable(id) => type_variable_contains_any_typevars_from_list(
            d,
            *id,
            list,
            cache,
        ),
        Type::NamedGeneric(id, _) => type_variable_contains_any_typevars_from_list(
            d,
            *id,
            list,
            cache,
        ),
        Type::Function(function) => {
            if contains_any_in_types(d, &function.parameters, list, cache)? {
                return Some(true);
            }
            if contains_any_at(d, &function.return_type, list, cache)? {
                return Some(true);
            }
            if contains_any_at(d, &function.environment, list, cache)? {
                return Some(true);
            }
            contains_any_at(d, &function.effects, list, cache)
        },
        Type::Ref { sharedness, mutability, lifetime } => {
            if contains_any_at(d, mutability, list, cache)? {
                return Some(true);
            }
            if contains_any_at(d, sharedness, list, cache)? {
                return Some(true);
            }
            contains_any_at(d, lifetime, list, cache)
        },
        Type::TypeApplication(constructor, args) => {
            if contains_any_at(d, constructor, list, cache)? {
                return Some(true);
            }
            contains_any_in_types(d, args, list, cache)
        },
        Type::Struct(fields, id) => {
            if type_variable_contains_any_typevars_from_list(d, *id, list, cache)? {
                return Some(true);
            }
            contains_any_in_fields(d, fields, list, cache)
        },
        Type::Effects(set) => {
            if contains_any_in_effects(d, &set.effects, list, cache)? {
                return Some(true);
            }
            match set.extension {
                None => Some(false),
                Some(id) => type_variable_contains_any_typevars_from_list(d, id, list, cache),
            }
        },
    }
}

/// Whether what the variable is bound to contains any of the listed variables, or the variable
/// itself is one.
pub fn type_variable_contains_any_typevars_from_list(
    depth: u64,
    id: TypeVariableId,
    list: &[TypeVariableId],
    cache: &ModuleCache,
) -> (r: Option<bool>)
    ensures
        r == variable_holds_any(depth as nat, id, list@, cache@.type_bindings),
    decreases depth, 1nat,
{
    if id.0 >= cache.type_bindings.len() {
        return None;
    }
    match &cache.type_bindings[id.0] {
        TypeBinding::Bound(typ) => contains_any_at(depth, typ, list, cache),
        TypeBinding::Unbound(_, _) => Some(is_listed(list, id)),
    }
}

/// Whether the list holds the variable.
pub fn is_listed(list: &[TypeVariableId], id: TypeVariableId) -> (r: bool)
    ensures
        r == list@.contains(id),
{
    let mut i: usize = 0;
    while i < list.len()
        invariant
            i <= list.len(),
            forall|j: int| 0 <= j < i ==> list@[j] != id,
        decreases list.len() - i,
    {
        if list[i] == id {
            assert(list@[i as int] == id);
            return true;
        }
        i += 1;
    }
    false
}

proof fn lemma_seq_holds_any_early(
    depth: nat,
    ts: Seq<Ty>,
    n: int,
    list: Seq<TypeVariableId>,
    vars: Seq<Binding>,
)
    requires
        0 <= n <= ts.len(),
        seq_holds_any(depth, ts.take(n), list, vars) != Some(false),
    ensures
        seq_holds_any(depth, ts, list, vars) == seq_holds_any(depth, ts.take(n), list, vars),
    decreases ts.len(),
{
    if n < ts.len() {
        assert(ts.drop_last().take(n) =~= ts.take(n));
        lemma_seq_holds_any_early(depth, ts.drop_last(), n, list, vars);
    } else {
        assert(ts.take(n) =~= ts);
    }
}

fn contains_any_in_types(
    depth: u64,
    types: &[Type],
    list: &[TypeVariableId],
    cache: &ModuleCache,
) -> (r: Option<bool>)
    ensures
        r == seq_holds_any(depth as nat, tys(types@), list@, cache@.type_bindings),
    decreases depth, 1nat,
{
    let ghost ts = tys(types@);
    let ghost vars = cache@.type_bindings;
    let mut i: usize = 0;
    assert(ts.take(0) =~= Seq::empty());
    while i < types.len()
        invariant
            i <= types.len(),
            ts == tys(types@),
            vars == cache@.type_bindings,
            seq_holds_any(depth as nat, ts.take(i as int), list@, vars) == Some(false),
        decreases types.len() - i,
    {
        proof {
            assert(ts.take(i + 1).drop_last() =~= ts.take(i as int));
            assert(ts.take(i + 1).last() == types@[i as int]@);
        }
        let found = contains_any_at(depth, &types[i], list, cache);
        if found != Some(false) {
            proof {
                lemma_seq_holds_any_early(depth as nat, ts, i + 1, list@, vars);
            }
            return found;
        }
        i += 1;
    }
    assert(ts.take(i as int) =~= ts);
    Some(false)
}

fn contains_any_in_fields(
    depth: u64,
    fields: &Vec<Field>,
    list: &[TypeVariableId],
    cache: &ModuleCache,
) -> (r: Option<bool>)
    ensures
        r == seq_holds_any(depth as nat, field_tys(fields@), list@, cache@.type_bindings),
    decreases depth, 1nat,
{
    let ghost ts = field_tys(fields@);
    let ghost vars = cache@.type_bindings;
    let mut i: usize = 0;
    assert(ts.take(0) =~= Seq::empty());
    while i < fields.len()
        invariant
            i <= fields.len(),
            ts == field_tys(fields@),
            vars == cache@.type_bindings,
            seq_holds_any(depth as nat, ts.take(i as int), list@, vars) == Some(false),
        decreases fields.len() - i,
    {
        proof {
            assert(ts.take(i + 1).drop_last() =~= ts.take(i as int));
            assert(ts.take(i + 1).last() == fields@[i as int].typ@);
        }
        let found = contains_any_at(depth, &fields[i].typ, list, cache);
        if found != Some(false) {
            proof {
                lemma_seq_holds_any_early(depth as nat, ts, i + 1, list@, vars);
            }
            return found;
        }
        i += 1;
    }
    assert(ts.take(i as int) =~= ts);
    Some(false)
}

fn contains_any_in_effects(
    depth: u64,
    effects: &Vec<Effect>,
    list: &[TypeVariableId],
    cache: &ModuleCache,
) -> (r: Option<bool>)
    ensures
        r == seq_holds_any(depth as nat, effect_tys(effects@), list@, cache@.type_bindings),
    decreases depth, 1nat,
{
    let ghost ts = effect_tys(effects@);
    let ghost vars = cache@.type_bindings;
    let mut i: usize = 0;
    assert(ts.take(0) =~= Seq::empty());
    while i < effects.len()
        invariant
            i <= effects.len(),
            ts == effect_tys(effects@),
            vars == cache@.type_bindings,
            seq_holds_any(depth as nat, ts.take(i as int), list@, vars) == Some(false),
        decreases effects.len() - i,
    {
        proof {
            assert(ts.take(i + 1).drop_last() =~= ts.take(i as int));
            assert(ts.take(i + 1).last() == effects@[i as int]@);
            assert(holds_any(depth as nat, effects@[i as int]@, list@, vars) == if depth == 0 {
                None
            } else {
                seq_holds_any((depth - 1) as nat, tys(effects@[i as int].args@), list@, vars)
            });
        }
        let found = if depth == 0 {
            None
        } else {
            contains_any_in_types(depth - 1, &effects[i].args, list, cache)
        };
        if found != Some(false) {
            proof {
                lemma_seq_holds_any_early(depth as nat, ts, i + 1, list@, vars);
            }
            return found;
        }
        i += 1;
    }
    assert(ts.take(i as int) =~= ts);
    Some(false)
}

/// Whether the type contains any of the variables in the list.
pub fn contains_any_typevars_from_list(
    typ: &Type,
    list: &[TypeVariableId],
    cache: &ModuleCache,
) -> (r: bool)
    requires
        holds_any(MAX_DEPTH as nat, typ@, list@, cache@.type_bindings) is Some,
    ensures
        holds_any(MAX_DEPTH as nat, typ@, list@, cache@.type_bindings) == Some(r),
{
    contains_any_at(MAX_DEPTH, typ, list, cache).unwrap()
}

/// A type that contains a listed variable reaches one.
pub proof fn law_contains_reaches(
    depth: nat,
    t: Ty,
    list: Seq<TypeVariableId>,
    vars: Seq<Binding>,
)
    requires
        holds_any(depth, t, list, vars) == Some(true),
    ensures
        exists|v: TypeVariableId|
            list.contains(v) && #[trigger] reaches(depth, t, v, Map::empty(), vars),
    decreases depth, 0nat, 0nat,
{
    let d = (depth - 1) as nat;
    let none = Map::<usize, Ty>::empty();
    match t {
        Ty::Variable(id) | Ty::NamedGeneric(id, _) => {
            let v = lemma_variable_contains(d, id, list, vars);
            assert(reaches(depth, t, v, none, vars));
        },
        Ty::Function { parameters, return_type, environment, effects, .. } => {
            let v = if seq_holds_any(d, parameters, list, vars) == Some(true) {
                lemma_seq_contains(d, parameters, list, vars)
            } else if holds_any(d, *return_type, list, vars) == Some(true) {
                lemma_type_contains(d, *return_type, list, vars)
            } else if holds_any(d, *environment, list, vars) == Some(true) {
                lemma_type_contains(d, *environment, list, vars)
            } else {
                lemma_type_contains(d, *effects, list, vars)
            };
            assert(reaches(depth, t, v, none, vars));
        },
        Ty::Ref { sharedness, mutability, lifetime } => {
            let v = if holds_any(d, *mutability, list, vars) == Some(true) {
                lemma_type_contains(d, *mutability, list, vars)
            } else if holds_any(d, *sharedness, list, vars) == Some(true) {
                lemma_type_contains(d, *sharedness, list, vars)
            } else {
                lemma_type_contains(d, *lifetime, list, vars)
            };
            assert(reaches(depth, t, v, none, vars));
        },
        Ty::Application(constructor, args) => {
            let v = if holds_any(d, *constructor, list, vars) == Some(true) {
                lemma_type_contains(d, *constructor, list, vars)
            } else {
                lemma_seq_contains(d, args, list, vars)
            };
            assert(reaches(depth, t, v, none, vars));
        },
        Ty::Struct(_, types, rest) => {
            let v = if variable_holds_any(d, rest, list, vars) == Some(true) {
                lemma_variable_contains(d, rest, list, vars)
            } else {
                lemma_seq_contains(d, types, list, vars)
            };
            assert(reaches(depth, t, v, none, vars));
        },
        Ty::Effect(_, args) => {
            let v = lemma_seq_contains(d, args, list, vars);
            assert(reaches(depth, t, v, none, vars));
        },
        Ty::Effects(effects, extension) => {
            let v = if seq_holds_any(d, effects, list, vars) == Some(true) {
                lemma_seq_contains(d, effects, list, vars)
            } else {
                lemma_variable_contains(d, extension->0, list, vars)
            };
            assert(reaches(depth, t, v, none, vars));
        },
        _ => {},
    }
}

proof fn lemma_type_contains(
    depth: nat,
    t: Ty,
    list: Seq<TypeVariableId>,
    vars: Seq<Binding>,
) -> (v: TypeVariableId)
    requires
        holds_any(depth, t, list, vars) == Some(true),
    ensures
        list.contains(v),
        reaches(depth, t, v, Map::empty(), vars),
    decreases depth, 1nat, 0nat,
{
    law_contains_reaches(depth, t, list, vars);
    choose|v: TypeVariableId|
        list.contains(v) && #[trigger] reaches(depth, t, v, Map::empty(), vars)
}

proof fn lemma_seq_contains(
    depth: nat,
    ts: Seq<Ty>,
    list: Seq<TypeVariableId>,
    vars: Seq<Binding>,
) -> (v: TypeVariableId)
    requires
        seq_holds_any(depth, ts, list, vars) == Some(true),
    ensures
        list.contains(v),
        exists|i: int| 0 <= i < ts.len() && reaches(depth, #[trigger] ts[i], v, Map::empty(), vars),
    decreases depth, 2nat, ts.len(),
{
    if seq_holds_any(depth, ts.drop_last(), list, vars) == Some(true) {
        let v = lemma_seq_contains(depth, ts.drop_last(), list, vars);
        let i = choose|i: int|
            0 <= i < ts.drop_last().len() && reaches(
                depth,
                #[trigger] ts.drop_last()[i],
                v,
                Map::empty(),
                vars,
            );
        assert(ts[i] == ts.drop_last()[i]);
        v
    } else {
        let v = lemma_type_contains(depth, ts.last(), list, vars);
        assert(ts[ts.len() - 1] == ts.last());
        v
    }
}

proof fn lemma_variable_contains(
    depth: nat,
    id: TypeVariableId,
    list: Seq<TypeVariableId>,
    vars: Seq<Binding>,
) -> (v: TypeVariableId)
    requires
        variable_holds_any(depth, id, list, vars) == Some(true),
    ensures
        list.contains(v),
        reaches_through(depth, id, v, Map::empty(), vars),
    decreases depth, 2nat, 0nat,
{
    match lookup(vars, id) {
        Some(Binding::Bound(b)) => lemma_type_contains(depth, b, list, vars),
        _ => id,
    }
}

/// A type that contains no listed variable reaches none.
pub proof fn law_reaches_contains(
    depth: nat,
    t: Ty,
    list: Seq<TypeVariableId>,
    vars: Seq<Binding>,
    n: nat,
    v: TypeVariableId,
)
    requires
        holds_any(depth, t, list, vars) == Some(false),
        reaches(n, t, v, Map::empty(), vars),
    ensures
        !list.contains(v),
    decreases depth, 0nat, 0nat,
{
    let d = (depth - 1) as nat;
    let m = (n - 1) as nat;
    let none = Map::<usize, Ty>::empty();
    match t {
        Ty::Variable(id) | Ty::NamedGeneric(id, _) => {
            lemma_reaches_through_contains(d, id, list, vars, m, v);
        },
        Ty::Function { parameters, return_type, environment, effects, .. } => {
            if reaches(m, *return_type, v, none, vars) {
                law_reaches_contains(d, *return_type, list, vars, m, v);
            } else if reaches(m, *environment, v, none, vars) {
                law_reaches_contains(d, *environment, list, vars, m, v);
            } else if reaches(m, *effects, v, none, vars) {
                law_reaches_contains(d, *effects, list, vars, m, v);
            } else {
                lemma_reaches_seq_contains(d, parameters, list, vars, m, v);
            }
        },
        Ty::Ref { sharedness, mutability, lifetime } => {
            if reaches(m, *mutability, v, none, vars) {
                law_reaches_contains(d, *mutability, list, vars, m, v);
            } else if reaches(m, *sharedness, v, none, vars) {
                law_reaches_contains(d, *sharedness, list, vars, m, v);
            } else {
                law_reaches_contains(d, *lifetime, list, vars, m, v);
            }
        },
        Ty::Application(constructor, args) => {
            if reaches(m, *constructor, v, none, vars) {
                law_reaches_contains(d, *constructor, list, vars, m, v);
            } else {
                lemma_reaches_seq_contains(d, args, list, vars, m, v);
            }
        },
        Ty::Struct(_, types, rest) => {
            if reaches_through(m, rest, v, none, vars) {
                lemma_reaches_through_contains(d, rest, list, vars, m, v);
            } else {
                lemma_reaches_seq_contains(d, types, list, vars, m, v);
            }
        },
        Ty::Effect(_, args) => lemma_reaches_seq_contains(d, args, list, vars, m, v),
        Ty::Effects(effects, extension) => {
            if extension matches Some(w) && reaches_through(m, w, v, none, vars) {
                lemma_reaches_through_contains(d, extension->0, list, vars, m, v);
            } else {
                lemma_reaches_seq_contains(d, effects, list, vars, m, v);
            }
        },
        _ => {},
    }
}

proof fn lemma_reaches_seq_contains(
    depth: nat,
    ts: Seq<Ty>,
    list: Seq<TypeVariableId>,
    vars: Seq<Binding>,
    n: nat,
    v: TypeVariableId,
)
    requires
        seq_holds_any(depth, ts, list, vars) == Some(false),
        exists|i: int| 0 <= i < ts.len() && reaches(n, #[trigger] ts[i], v, Map::empty(), vars),
    ensures
        !list.contains(v),
    decreases depth, 1nat, ts.len(),
{
    let i = choose|i: int|
        0 <= i < ts.len() && reaches(n, #[trigger] ts[i], v, Map::empty(), vars);
    if i == ts.len() - 1 {
        law_reaches_contains(depth, ts.last(), list, vars, n, v);
    } else {
        assert(ts.drop_last()[i] == ts[i]);
        lemma_reaches_seq_contains(depth, ts.drop_last(), list, vars, n, v);
    }
}

proof fn lemma_reaches_through_contains(
    depth: nat,
    id: TypeVariableId,
    list: Seq<TypeVariableId>,
    vars: Seq<Binding>,
    n: nat,
    v: TypeVariableId,
)
    requires
        variable_holds_any(depth, id, list, vars) == Some(false),
        reaches_through(n, id, v, Map::empty(), vars),
    ensures
        !list.contains(v),
    decreases depth, 1nat, 0nat,
{
    if let Some(Binding::Bound(b)) = lookup(vars, id) {
        law_reaches_contains(depth, b, list, vars, n, v);
    }
}

} // verus!
