//! Replacing the type variables inside a type.

use crate::bindings::{get_binding, insert_binding, is_empty, types_of, TypeBindings};
use crate::cache::{lookup, Binding, Cache, ModuleCache, TypeBinding};
use crate::resolve::{are_types, is_type, MAX_DEPTH};
use crate::types::{
    effect_tys, field_names, field_tys, tys, Effect, EffectSet, Field, FunctionType, Ty, Type,
    TypeVariableId,
};
use std::collections::HashMap;
use vstd::prelude::*;

verus! {

/// A row of effects whose extension variable was replaced with the given type: a variable is the
/// new extension, and another row is appended. No other type can extend a row.
pub open spec fn extend_row(effects: Seq<Ty>, extension: Ty) -> Option<Ty> {
    match extension {
        Ty::Variable(id) => Some(Ty::Effects(effects, Some(id))),
        Ty::NamedGeneric(id, _) => Some(Ty::Effects(effects, Some(id))),
        Ty::Effects(more, end) => Some(Ty::Effects(effects + more, end)),
        _ => None,
    }
}

/// The type with its variables replaced as the bindings say. A variable that the bindings leave
/// alone and that the cache binds stands for its binding. `None` if the nesting exceeds `depth`,
/// a variable is not in the cache, or a row is extended by what is no row.
pub open spec fn bind(depth: nat, t: Ty, types: Map<usize, Ty>, vars: Seq<Binding>) -> Option<Ty>
    decreases depth, 0nat,
{
    if depth == 0 {
        None
    } else {
        let d = (depth - 1) as nat;
        match t {
            Ty::Primitive(_) => Some(t),
            Ty::Tag(_) => Some(t),
            Ty::UserDefined(_) => Some(t),
            Ty::Variable(id) => bind_variable(d, id, types, vars),
            Ty::NamedGeneric(id, _) => Some(
                if types.contains_key(id.0) {
                    types[id.0]
                } else {
                    t
                },
            ),
            Ty::Function { parameters, return_type, environment, effects, has_varargs } => match (
                bind_seq(d, parameters, types, vars),
                bind(d, *return_type, types, vars),
                bind(d, *environment, types, vars),
                bind(d, *effects, types, vars),
            ) {
                (Some(p), Some(r), Some(env), Some(e)) => Some(
                    Ty::Function {
                        parameters: p,
                        return_type: Box::new(r),
                        environment: Box::new(env),
                        effects: Box::new(e),
                        has_varargs,
                    },
                ),
                _ => None,
            },
            Ty::Ref { sharedness, mutability, lifetime } => match (
                bind(d, *mutability, types, vars),
                bind(d, *sharedness, types, vars),
                bind(d, *lifetime, types, vars),
            ) {
                (Some(m), Some(s), Some(l)) => Some(
                    Ty::Ref {
                        sharedness: Box::new(s),
                        mutability: Box::new(m),
                        lifetime: Box::new(l),
                    },
                ),
                _ => None,
            },
            Ty::Application(constructor, args) => match (
                bind(d, *constructor, types, vars),
                bind_seq(d, args, types, vars),
            ) {
                (Some(c), Some(a)) => Some(Ty::Application(Box::new(c), a)),
                _ => None,
            },
            Ty::Struct(names, fields, rest) => if types.contains_key(rest.0) {
                match types[rest.0] {
                    Ty::Variable(id) => match bind_seq(d, fields, types, vars) {
                        Some(f) => Some(Ty::Struct(names, f, id)),
                        None => None,
                    },
                    other => Some(other),
                }
            } else {
                match lookup(vars, rest) {
                    None => None,
                    Some(Binding::Bound(b)) => bind(d, b, types, vars),
                    Some(Binding::Unbound(_, _)) => match bind_seq(d, fields, types, vars) {
                        Some(f) => Some(Ty::Struct(names, f, rest)),
                        None => None,
                    },
                }
            },
            Ty::Effect(id, args) => match bind_seq(d, args, types, vars) {
                Some(a) => Some(Ty::Effect(id, a)),
                None => None,
            },
            Ty::Effects(effects, extension) => match bind_seq(d, effects, types, vars) {
                None => None,
                Some(e) => match extension {
                    None => Some(Ty::Effects(e, None)),
                    Some(id) => match bind_variable(d, id, types, vars) {
                        None => None,
                        Some(x) => extend_row(e, x),
                    },
                },
            },
        }
    }
}

/// Each of the types with its variables replaced.
pub open spec fn bind_seq(
    depth: nat,
    ts: Seq<Ty>,
    types: Map<usize, Ty>,
    vars: Seq<Binding>,
) -> Option<Seq<Ty>>
    decreases depth, 1nat,
{
    if forall|i: int| 0 <= i < ts.len() ==> bind(depth, #[trigger] ts[i], types, vars) is Some {
        Some(Seq::new(ts.len(), |i: int| bind(depth, ts[i], types, vars)->0))
    } else {
        None
    }
}

/// What a variable is replaced with. The bindings come before the cache: a variable that a
/// definition is generic over may be bound in the cache as well.
pub open spec fn bind_variable(
    depth: nat,
    id: TypeVariableId,
    types: Map<usize, Ty>,
    vars: Seq<Binding>,
) -> Option<Ty>
    decreases depth, 1nat,
{
    if types.contains_key(id.0) {
        Some(types[id.0])
    } else {
        match lookup(vars, id) {
            None => None,
            Some(Binding::Bound(b)) => bind(depth, b, types, vars),
            Some(Binding::Unbound(_, _)) => Some(Ty::Variable(id)),
        }
    }
}

/// Appends a row of effects to another, as `extend_row` says.
pub fn extend_effects(effects: Vec<Effect>, extension: Type) -> (r: Option<Type>)
    ensures
        is_type(r, extend_row(effect_tys(effects@), extension@)),
{
    match extension {
        Type::TypeVariable(id) => Some(
            Type::Effects(EffectSet { effects, extension: Some(id) }),
        ),
        Type::NamedGeneric(id, _) => Some(
            Type::Effects(EffectSet { effects, extension: Some(id) }),
        ),
        Type::Effects(set) => {
            let ghost before = effects@;
            let ghost added = set.effects@;
            let mut effects = effects;
            let mut more = set.effects;
            effects.append(&mut more);
            assert(effect_tys(effects@) =~= effect_tys(before) + effect_tys(added));
            Some(Type::Effects(EffectSet { effects, extension: set.extension }))
        },
        _ => None,
    }
}

/// Replaces the variables inside a type of any shape, also where there are no bindings but those of
/// the cache.
pub fn bind_at(depth: u64, typ: &Type, type_bindings: &TypeBindings, cache: &ModuleCache) -> (r:
    Option<Type>)
    ensures
        is_type(r, bind(depth as nat, typ@, types_of(type_bindings@), cache@.type_bindings)),
    decreases depth, 0nat,
{
    if depth == 0 {
        return None;
    }
    let d: u64 = depth - 1;
    match typ {
        Type::Primitive(p) => Some(Type::Primitive(*p)),
        Type::Tag(tag) => Some(Type::Tag(*tag)),
        Type::UserDefined(id) => Some(Type::UserDefined(*id)),
        Type::TypeVariable(id) => bind_typevar(d, *id, type_bindings, cache),
        Type::NamedGeneric(id, _) => match get_binding(type_bindings, *id) {
            Some(binding) => Some(binding.clone()),
            None => Some(typ.clone()),
        },
        Type::Function(function) => {
            let parameters = bind_types_at(d, &function.parameters, type_bindings, cache)?;
            let return_type = bind_at(d, &function.return_type, type_bindings, cache)?;
            let environment = bind_at(d, &function.environment, type_bindings, cache)?;
            let effects = bind_at(d, &function.effects, type_bindings, cache)?;
            Some(
                Type::Function(
                    FunctionType {
                        parameters,
                        return_type: Box::new(return_type),
                        environment: Box::new(environment),
                        effects: Box::new(effects),
                        has_varargs: function.has_varargs,
                    },
                ),
            )
        },
        Type::Ref { sharedness, mutability, lifetime } => {
            let mutability = bind_at(d, mutability, type_bindings, cache)?;
            let sharedness = bind_at(d, sharedness, type_bindings, cache)?;
            let lifetime = bind_at(d, lifetime, type_bindings, cache)?;
            Some(
                Type::Ref {
                    sharedness: Box::new(sharedness),
                    mutability: Box::new(mutability),
                    lifetime: Box::new(lifetime),
                },
            )
        },
        Type::TypeApplication(constructor, args) => {
            let constructor = bind_at(d, constructor, type_bindings, cache)?;
            let args = bind_types_at(d, args, type_bindings, cache)?;
            Some(Type::TypeApplication(Box::new(constructor), args))
        },
        Type::Struct(fields, id) => match get_binding(type_bindings, *id) {
            Some(Type::TypeVariable(binding_id)) => {
                let fields = bind_fields_at(d, fields, type_bindings, cache)?;
                Some(Type::Struct(fields, *binding_id))
            },
            Some(binding) => {
                Some(binding.clone())
            },
            None => {
                if id.0 >= cache.type_bindings.len() {
                    return None;
                }
                match &cache.type_bindings[id.0] {
                    TypeBinding::Bound(b) => bind_at(d, b, type_bindings, cache),
                    TypeBinding::Unbound(_, _) => {
                        let fields = bind_fields_at(d, fields, type_bindings, cache)?;
                        Some(Type::Struct(fields, *id))
                    },
                }
            },
        },
        Type::Effects(set) => {
            let effects = bind_effects_at(d, &set.effects, type_bindings, cache)?;
            match set.extension {
                None => Some(Type::Effects(EffectSet { effects, extension: None })),
                Some(id) => {
                    let extension = bind_typevar(d, id, type_bindings, cache)?;
                    extend_effects(effects, extension)
                },
            }
        },
    }
}

/// Replaces a single variable, as `bind_variable` says. Where there are no bindings, a variable
/// that the cache binds is still replaced with its binding, whereas `bind_typevars` just clones.
pub fn bind_typevar(
    depth: u64,
    id: TypeVariableId,
    type_bindings: &TypeBindings,
    cache: &ModuleCache,
) -> (r: Option<Type>)
    ensures
        is_type(
            r,
            bind_variable(depth as nat, id, types_of(type_bindings@), cache@.type_bindings),
        ),
    decreases depth, 1nat,
{
    match get_binding(type_bindings, id) {
        Some(binding) => Some(binding.clone()),
        None => {
            if id.0 >= cache.type_bindings.len() {
                return None;
            }
            match &cache.type_bindings[id.0] {
                TypeBinding::Bound(b) => bind_at(depth, b, type_bindings, cache),
                TypeBinding::Unbound(_, _) => Some(Type::TypeVariable(id)),
            }
        },
    }
}

/// Replaces the variables of each of the types.
pub fn bind_types_at(
    depth: u64,
    types: &[Type],
    type_bindings: &TypeBindings,
    cache: &ModuleCache,
) -> (r: Option<Vec<Type>>)
    ensures
        are_types(
            r,
            bind_seq(depth as nat, tys(types@), types_of(type_bindings@), cache@.type_bindings),
        ),
    decreases depth, 1nat,
{
    let ghost ts = tys(types@);
    let ghost map = types_of(type_bindings@);
    let ghost vars = cache@.type_bindings;
    let mut r: Vec<Type> = Vec::new();
    let mut i: usize = 0;
    while i < types.len()
        invariant
            i <= types.len(),
            ts == tys(types@),
            map == types_of(type_bindings@),
            vars == cache@.type_bindings,
            r.len() == i,
            forall|j: int|
                0 <= j < i ==> bind(depth as nat, #[trigger] ts[j], map, vars) == Some(r@[j]@),
        decreases types.len() - i,
    {
        assert(ts[i as int] == types@[i as int]@);
        match bind_at(depth, &types[i], type_bindings, cache) {
            Some(t) => r.push(t),
            None => {
                return None;
            },
        }
        i += 1;
    }
    assert(tys(r@) =~= bind_seq(depth as nat, ts, map, vars)->0);
    Some(r)
}

/// Replaces the variables in the types of the fields.
pub fn bind_fields_at(
    depth: u64,
    fields: &Vec<Field>,
    type_bindings: &TypeBindings,
    cache: &ModuleCache,
) -> (r: Option<Vec<Field>>)
    ensures
        match bind_seq(
            depth as nat,
            field_tys(fields@),
            types_of(type_bindings@),
            cache@.type_bindings,
        ) {
            Some(ts) => r is Some && field_tys(r->0@) == ts && field_names(r->0@) == field_names(
                fields@,
            ),
            None => r is None,
        },
    decreases depth, 1nat,
{
    let ghost ts = field_tys(fields@);
    let ghost map = types_of(type_bindings@);
    let ghost vars = cache@.type_bindings;
    let mut r: Vec<Field> = Vec::new();
    let mut i: usize = 0;
    while i < fields.len()
        invariant
            i <= fields.len(),
            ts == field_tys(fields@),
            map == types_of(type_bindings@),
            vars == cache@.type_bindings,
            r.len() == i,
            forall|j: int| 0 <= j < i ==> (#[trigger] r@[j]).name@ == fields@[j].name@,
            forall|j: int|
                0 <= j < i ==> bind(depth as nat, #[trigger] ts[j], map, vars) == Some(
                    r@[j].typ@,
                ),
        decreases fields.len() - i,
    {
        assert(ts[i as int] == fields@[i as int].typ@);
        match bind_at(depth, &fields[i].typ, type_bindings, cache) {
            Some(typ) => r.push(Field { name: fields[i].name.clone(), typ }),
            None => {
                return None;
            },
        }
        i += 1;
    }
    assert(field_tys(r@) =~= bind_seq(depth as nat, ts, map, vars)->0);
    assert(field_names(r@) =~= field_names(fields@));
    Some(r)
}

/// Replaces the variables in the arguments of the effects.
pub fn bind_effects_at(
    depth: u64,
    effects: &Vec<Effect>,
    type_bindings: &TypeBindings,
    cache: &ModuleCache,
) -> (r: Option<Vec<Effect>>)
    ensures
        match bind_seq(
            depth as nat,
            effect_tys(effects@),
            types_of(type_bindings@),
            cache@.type_bindings,
        ) {
            Some(ts) => r is Some && effect_tys(r->0@) == ts,
            None => r is None,
        },
    decreases depth, 1nat,
{
    let ghost ts = effect_tys(effects@);
    let ghost map = types_of(type_bindings@);
    let ghost vars = cache@.type_bindings;
    let mut r: Vec<Effect> = Vec::new();
    let mut i: usize = 0;
    while i < effects.len()
        invariant
            i <= effects.len(),
            ts == effect_tys(effects@),
            map == types_of(type_bindings@),
            vars == cache@.type_bindings,
            r.len() == i,
            forall|j: int|
                0 <= j < i ==> bind(depth as nat, #[trigger] ts[j], map, vars) == Some(r@[j]@),
        decreases effects.len() - i,
    {
        assert(ts[i as int] == effects@[i as int]@);
        if depth == 0 {
            return None;
        }
        match bind_types_at(depth - 1, &effects[i].args, type_bindings, cache) {
            Some(args) => r.push(Effect { id: effects[i].id, args }),
            None => {
                return None;
            },
        }
        i += 1;
    }
    assert(effect_tys(r@) =~= bind_seq(depth as nat, ts, map, vars)->0);
    Some(r)
}

/// The type with its variables replaced as the bindings say. Where there are no bindings nothing is
/// replaced, what the cache binds neither.
pub open spec fn bound_type(t: Ty, types: Map<usize, Ty>, vars: Seq<Binding>) -> Option<Ty> {
    if types == Map::<usize, Ty>::empty() {
        Some(t)
    } else {
        bind(MAX_DEPTH as nat, t, types, vars)
    }
}

/// Each of the types with its variables replaced as the bindings say, if there are any.
pub open spec fn bound_types(ts: Seq<Ty>, types: Map<usize, Ty>, vars: Seq<Binding>) -> Option<
    Seq<Ty>,
> {
    if types == Map::<usize, Ty>::empty() {
        Some(ts)
    } else {
        bind_seq(MAX_DEPTH as nat, ts, types, vars)
    }
}

/// `bind_typevars` where the result may not be defined.
pub fn try_bind_typevars(typ: &Type, type_bindings: &TypeBindings, cache: &ModuleCache) -> (r:
    Option<Type>)
    ensures
        is_type(r, bound_type(typ@, types_of(type_bindings@), cache@.type_bindings)),
{
    if is_empty(type_bindings) {
        return Some(typ.clone());
    }
    bind_at(MAX_DEPTH, typ, type_bindings, cache)
}

/// Replaces the variables inside the type as the bindings say. Unlike
/// `replace_all_typevars_with_bindings`, this makes no fresh variables: an unbound variable that
/// the bindings leave alone stays. So if there are no bindings, this just clones the type.
pub fn bind_typevars(typ: &Type, type_bindings: &TypeBindings, cache: &ModuleCache) -> (r: Type)
    requires
        bound_type(typ@, types_of(type_bindings@), cache@.type_bindings) is Some,
    ensures
        bound_type(typ@, types_of(type_bindings@), cache@.type_bindings) == Some(r@),
{
    try_bind_typevars(typ, type_bindings, cache).unwrap()
}

/// The type with every unbound variable in it replaced: with what the bindings hold for it, or
/// else with a fresh variable, which the bindings then hold. The variable of a row is replaced like
/// any other; where a type that is no variable comes in its place, the whole row becomes that type.
/// With the type come the bindings and the cache that there are afterwards.
pub open spec fn replace(depth: nat, t: Ty, types: Map<usize, Ty>, c: Cache) -> Option<
    (Ty, Map<usize, Ty>, Cache),
>
    decreases depth, 0nat, 0nat,
{
    if depth == 0 {
        None
    } else {
        let d = (depth - 1) as nat;
        match t {
            Ty::Primitive(_) => Some((t, types, c)),
            Ty::Tag(_) => Some((t, types, c)),
            Ty::UserDefined(_) => Some((t, types, c)),
            Ty::Variable(id) => replace_variable(d, id, types, c),
            Ty::NamedGeneric(id, _) => replace_variable(d, id, types, c),
            Ty::Function { parameters, return_type, environment, effects, has_varargs } => {
                match replace_seq(d, parameters, types, c) {
                    None => None,
                    Some((p, m1, c1)) => match replace(d, *return_type, m1, c1) {
                        None => None,
                        Some((r, m2, c2)) => match replace(d, *environment, m2, c2) {
                            None => None,
                            Some((env, m3, c3)) => match replace(d, *effects, m3, c3) {
                                None => None,
                                Some((e, m4, c4)) => Some(
                                    (
                                        Ty::Function {
                                            parameters: p,
                                            return_type: Box::new(r),
                                            environment: Box::new(env),
                                            effects: Box::new(e),
                                            has_varargs,
                                        },
                                        m4,
                                        c4,
                                    ),
                                ),
                            },
                        },
                    },
                }
            },
            Ty::Ref { sharedness, mutability, lifetime } => {
                match replace(d, *mutability, types, c) {
                    None => None,
                    Some((m, m1, c1)) => match replace(d, *sharedness, m1, c1) {
                        None => None,
                        Some((s, m2, c2)) => match replace(d, *lifetime, m2, c2) {
                            None => None,
                            Some((l, m3, c3)) => Some(
                                (
                                    Ty::Ref {
                                        sharedness: Box::new(s),
                                        mutability: Box::new(m),
                                        lifetime: Box::new(l),
                                    },
                                    m3,
                                    c3,
                                ),
                            ),
                        },
                    },
                }
            },
            Ty::Application(constructor, args) => match replace(d, *constructor, types, c) {
                None => None,
                Some((f, m1, c1)) => match replace_seq(d, args, m1, c1) {
                    None => None,
                    Some((a, m2, c2)) => Some((Ty::Application(Box::new(f), a), m2, c2)),
                },
            },
            Ty::Struct(names, fields, rest) => match lookup(c.type_bindings, rest) {
                None => None,
                Some(Binding::Bound(b)) => replace(d, b, types, c),
                Some(Binding::Unbound(_, _)) => match replace_variable(d, rest, types, c) {
                    Some((Ty::Variable(id), m1, c1)) => match replace_seq(d, fields, m1, c1) {
                        None => None,
                        Some((f, m2, c2)) => Some((Ty::Struct(names, f, id), m2, c2)),
                    },
                    other => other,
                },
            },
            Ty::Effect(id, args) => match replace_seq(d, args, types, c) {
                None => None,
                Some((a, m1, c1)) => Some((Ty::Effect(id, a), m1, c1)),
            },
            Ty::Effects(effects, extension) => match replace_seq(d, effects, types, c) {
                None => None,
                Some((e, m1, c1)) => match extension {
                    None => Some((Ty::Effects(e, None), m1, c1)),
                    Some(id) => match replace_variable(d, id, m1, c1) {
                        None => None,
                        Some((x, m2, c2)) => match extend_row(e, x) {
                            None => None,
                            Some(row) => Some((row, m2, c2)),
                        },
                    },
                },
            },
        }
    }
}

/// Each of the types, in order, with its unbound variables replaced.
pub open spec fn replace_seq(depth: nat, ts: Seq<Ty>, types: Map<usize, Ty>, c: Cache) -> Option<
    (Seq<Ty>, Map<usize, Ty>, Cache),
>
    decreases depth, 1nat, ts.len(),
{
    if ts.len() == 0 {
        Some((Seq::empty(), types, c))
    } else {
        match replace(depth, ts[0], types, c) {
            None => None,
            Some((t, m1, c1)) => match replace_seq(depth, ts.skip(1), m1, c1) {
                None => None,
                Some((rest, m2, c2)) => Some((seq![t] + rest, m2, c2)),
            },
        }
    }
}

/// What a variable is replaced with: for a bound one its type, replaced in turn.
pub open spec fn replace_variable(
    depth: nat,
    id: TypeVariableId,
    types: Map<usize, Ty>,
    c: Cache,
) -> Option<(Ty, Map<usize, Ty>, Cache)>
    decreases depth, 1nat, 0nat,
{
    match lookup(c.type_bindings, id) {
        None => None,
        Some(Binding::Bound(b)) => replace(depth, b, types, c),
        Some(Binding::Unbound(_, _)) => if types.contains_key(id.0) {
            Some((types[id.0], types, c))
        } else {
            Some(
                (
                    Ty::Variable(c.next_id()),
                    types.insert(id.0, Ty::Variable(c.next_id())),
                    c.fresh(c.current_level),
                ),
            )
        },
    }
}

/// Whether a replaced type, the bindings and the cache are those their model says.
pub open spec fn is_replaced(
    r: Option<Type>,
    types: Map<usize, Ty>,
    c: Cache,
    m: Option<(Ty, Map<usize, Ty>, Cache)>,
) -> bool {
    match m {
        Some((t, types2, c2)) => r is Some && r->0@ == t && types == types2 && c == c2,
        None => r is None,
    }
}

/// `replace_all_typevars_with_bindings` for types of any shape.
pub fn replace_at(
    depth: u64,
    typ: &Type,
    new_bindings: &mut TypeBindings,
    cache: &mut ModuleCache,
) -> (r: Option<Type>)
    ensures
        is_replaced(
            r,
            types_of(final(new_bindings)@),
            final(cache)@,
            replace(depth as nat, typ@, types_of(old(new_bindings)@), old(cache)@),
        ),
    decreases depth, 0nat,
{
    if depth == 0 {
        return None;
    }
    let d: u64 = depth - 1;
    match typ {
        Type::Primitive(p) => Some(Type::Primitive(*p)),
        Type::Tag(tag) => Some(Type::Tag(*tag)),
        Type::UserDefined(id) => Some(Type::UserDefined(*id)),
        Type::TypeVariable(id) => replace_variable_at(d, *id, new_bindings, cache),
        Type::NamedGeneric(id, _) => replace_variable_at(d, *id, new_bindings, cache),
        Type::Function(function) => {
            let parameters = replace_types_at(d, &function.parameters, new_bindings, cache)?;
            let return_type = replace_at(d, &function.return_type, new_bindings, cache)?;
            let environment = replace_at(d, &function.environment, new_bindings, cache)?;
            let effects = replace_at(d, &function.effects, new_bindings, cache)?;
            Some(
                Type::Function(
                    FunctionType {
                        parameters,
                        return_type: Box::new(return_type),
                        environment: Box::new(environment),
                        effects: Box::new(effects),
                        has_varargs: function.has_varargs,
                    },
                ),
            )
        },
        Type::Ref { sharedness, mutability, lifetime } => {
            let mutability = replace_at(d, mutability, new_bindings, cache)?;
            let sharedness = replace_at(d, sharedness, new_bindings, cache)?;
            let lifetime = replace_at(d, lifetime, new_bindings, cache)?;
            Some(
                Type::Ref {
                    sharedness: Box::new(sharedness),
                    mutability: Box::new(mutability),
                    lifetime: Box::new(lifetime),
                },
            )
        },
        Type::TypeApplication(constructor, args) => {
            let constructor = replace_at(d, constructor, new_bindings, cache)?;
            let args = replace_types_at(d, args, new_bindings, cache)?;
            Some(Type::TypeApplication(Box::new(constructor), args))
        },
        Type::Struct(fields, id) => {
            if id.0 >= cache.type_bindings.len() {
                return None;
            }
            match &cache.type_bindings[id.0] {
                TypeBinding::Bound(b) => {
                    let b: Type = b.clone();
                    replace_at(d, &b, new_bindings, cache)
                },
                TypeBinding::Unbound(_, _) => {
                    match replace_variable_at(d, *id, new_bindings, cache)? {
                        Type::TypeVariable(rest) => {
                            let fields = replace_fields_at(d, fields, new_bindings, cache)?;
                            Some(Type::Struct(fields, rest))
                        },
                        other => Some(other),
                    }
                },
            }
        },
        Type::Effects(set) => {
            let effects = replace_effects_at(d, &set.effects, new_bindings, cache)?;
            match set.extension {
                None => Some(Type::Effects(EffectSet { effects, extension: None })),
                Some(id) => {
                    let extension = replace_variable_at(d, id, new_bindings, cache)?;
                    extend_effects(effects, extension)
                },
            }
        },
    }
}

/// `replace_typevar_with_binding` for bindings of any shape.
pub fn replace_variable_at(
    depth: u64,
    id: TypeVariableId,
    new_bindings: &mut TypeBindings,
    cache: &mut ModuleCache,
) -> (r: Option<Type>)
    ensures
        is_replaced(
            r,
            types_of(final(new_bindings)@),
            final(cache)@,
            replace_variable(depth as nat, id, types_of(old(new_bindings)@), old(cache)@),
        ),
    decreases depth, 1nat,
{
    if id.0 >= cache.type_bindings.len() {
        return None;
    }
    match &cache.type_bindings[id.0] {
        TypeBinding::Bound(b) => {
            let b: Type = b.clone();
            replace_at(depth, &b, new_bindings, cache)
        },
        TypeBinding::Unbound(_, _) => match get_binding(new_bindings, id) {
            Some(binding) => Some(binding.clone()),
            None => {
                let new_typevar = next_type_variable_id(cache);
                insert_binding(new_bindings, id, Type::TypeVariable(new_typevar));
                Some(Type::TypeVariable(new_typevar))
            },
        },
    }
}

/// Replaces the unbound variables of each of the types.
pub fn replace_types_at(
    depth: u64,
    types: &[Type],
    new_bindings: &mut TypeBindings,
    cache: &mut ModuleCache,
) -> (r: Option<Vec<Type>>)
    ensures
        match replace_seq(depth as nat, tys(types@), types_of(old(new_bindings)@), old(cache)@) {
            Some((ts, m, c)) => {
                &&& r is Some
                &&& tys(r->0@) == ts
                &&& types_of(final(new_bindings)@) == m
                &&& final(cache)@ == c
            },
            None => r is None,
        },
    decreases depth, 1nat,
{
    let ghost ts = tys(types@);
    let ghost whole = replace_seq(depth as nat, ts, types_of(new_bindings@), cache@);
    let mut r: Vec<Type> = Vec::new();
    let mut i: usize = 0;
    proof {
        assert(ts.skip(0) =~= ts);
        lemma_prepend(tys(r@), replace_seq(depth as nat, ts, types_of(new_bindings@), cache@));
    }
    while i < types.len()
        invariant
            i <= types.len(),
            ts == tys(types@),
            whole == replace_seq(depth as nat, ts, types_of(old(new_bindings)@), old(cache)@),
            whole == prepend(
                tys(r@),
                replace_seq(depth as nat, ts.skip(i as int), types_of(new_bindings@), cache@),
            ),
        decreases types.len() - i,
    {
        let ghost rest = ts.skip(i as int);
        assert(rest[0] == types@[i as int]@);
        assert(rest.skip(1) =~= ts.skip(i + 1));
        let ghost done = r@;
        match replace_at(depth, &types[i], new_bindings, cache) {
            Some(t) => {
                r.push(t);
                assert(tys(r@) =~= tys(done) + seq![t@]);
                proof {
                    lemma_prepend_twice(
                        tys(done),
                        t@,
                        replace_seq(depth as nat, rest.skip(1), types_of(new_bindings@), cache@),
                    );
                }
            },
            None => {
                return None;
            },
        }
        i += 1;
    }
    assert(tys(r@) + Seq::<Ty>::empty() =~= tys(r@));
    Some(r)
}

/// The replaced types, after those that are done.
pub open spec fn prepend(done: Seq<Ty>, rest: Option<(Seq<Ty>, Map<usize, Ty>, Cache)>) -> Option<
    (Seq<Ty>, Map<usize, Ty>, Cache),
> {
    match rest {
        Some((ts, m, c)) => Some((done + ts, m, c)),
        None => None,
    }
}

proof fn lemma_prepend(done: Seq<Ty>, rest: Option<(Seq<Ty>, Map<usize, Ty>, Cache)>)
    requires
        done.len() == 0,
    ensures
        prepend(done, rest) == rest,
{
    if let Some((ts, m, c)) = rest {
        assert(done + ts =~= ts);
    }
}

proof fn lemma_prepend_twice(
    done: Seq<Ty>,
    t: Ty,
    rest: Option<(Seq<Ty>, Map<usize, Ty>, Cache)>,
)
    ensures
        prepend(done, prepend(seq![t], rest)) == prepend(done + seq![t], rest),
{
    if let Some((ts, m, c)) = rest {
        assert(done + (seq![t] + ts) =~= (done + seq![t]) + ts);
    }
}

/// Replaces the unbound variables in the types of the fields.
pub fn replace_fields_at(
    depth: u64,
    fields: &Vec<Field>,
    new_bindings: &mut TypeBindings,
    cache: &mut ModuleCache,
) -> (r: Option<Vec<Field>>)
    ensures
        match replace_seq(
            depth as nat,
            field_tys(fields@),
            types_of(old(new_bindings)@),
            old(cache)@,
        ) {
            Some((ts, m, c)) => {
                &&& r is Some
                &&& field_tys(r->0@) == ts
                &&& field_names(r->0@) == field_names(fields@)
                &&& types_of(final(new_bindings)@) == m
                &&& final(cache)@ == c
            },
            None => r is None,
        },
    decreases depth, 1nat,
{
    let ghost ts = field_tys(fields@);
    let ghost whole = replace_seq(depth as nat, ts, types_of(new_bindings@), cache@);
    let mut r: Vec<Field> = Vec::new();
    let mut i: usize = 0;
    proof {
        assert(ts.skip(0) =~= ts);
        lemma_prepend(field_tys(r@), whole);
    }
    while i < fields.len()
        invariant
            i <= fields.len(),
            ts == field_tys(fields@),
            r.len() == i,
            forall|j: int| 0 <= j < i ==> (#[trigger] r@[j]).name@ == fields@[j].name@,
            whole == replace_seq(depth as nat, ts, types_of(old(new_bindings)@), old(cache)@),
            whole == prepend(
                field_tys(r@),
                replace_seq(depth as nat, ts.skip(i as int), types_of(new_bindings@), cache@),
            ),
        decreases fields.len() - i,
    {
        let ghost rest = ts.skip(i as int);
        assert(rest[0] == fields@[i as int].typ@);
        assert(rest.skip(1) =~= ts.skip(i + 1));
        let ghost done = r@;
        match replace_at(depth, &fields[i].typ, new_bindings, cache) {
            Some(typ) => {
                r.push(Field { name: fields[i].name.clone(), typ });
                assert(field_tys(r@) =~= field_tys(done) + seq![typ@]);
                proof {
                    lemma_prepend_twice(
                        field_tys(done),
                        typ@,
                        replace_seq(depth as nat, rest.skip(1), types_of(new_bindings@), cache@),
                    );
                }
            },
            None => {
                return None;
            },
        }
        i += 1;
    }
    assert(field_tys(r@) + Seq::<Ty>::empty() =~= field_tys(r@));
    assert(field_names(r@) =~= field_names(fields@));
    Some(r)
}

/// Replaces the unbound variables in the arguments of the effects.
pub fn replace_effects_at(
    depth: u64,
    effects: &Vec<Effect>,
    new_bindings: &mut TypeBindings,
    cache: &mut ModuleCache,
) -> (r: Option<Vec<Effect>>)
    ensures
        match replace_seq(
            depth as nat,
            effect_tys(effects@),
            types_of(old(new_bindings)@),
            old(cache)@,
        ) {
            Some((ts, m, c)) => {
                &&& r is Some
                &&& effect_tys(r->0@) == ts
                &&& types_of(final(new_bindings)@) == m
                &&& final(cache)@ == c
            },
            None => r is None,
        },
    decreases depth, 1nat,
{
    let ghost ts = effect_tys(effects@);
    let ghost whole = replace_seq(depth as nat, ts, types_of(new_bindings@), cache@);
    let mut r: Vec<Effect> = Vec::new();
    let mut i: usize = 0;
    proof {
        assert(ts.skip(0) =~= ts);
        lemma_prepend(effect_tys(r@), whole);
    }
    while i < effects.len()
        invariant
            i <= effects.len(),
            ts == effect_tys(effects@),
            whole == replace_seq(depth as nat, ts, types_of(old(new_bindings)@), old(cache)@),
            whole == prepend(
                effect_tys(r@),
                replace_seq(depth as nat, ts.skip(i as int), types_of(new_bindings@), cache@),
            ),
        decreases effects.len() - i,
    {
        let ghost rest = ts.skip(i as int);
        assert(rest[0] == effects@[i as int]@);
        assert(rest[0] == Ty::Effect(effects@[i as int].id, tys(effects@[i as int].args@)));
        let ghost one = replace(depth as nat, rest[0], types_of(new_bindings@), cache@);
        assert(rest.skip(1) =~= ts.skip(i + 1));
        let ghost done = r@;
        if depth == 0 {
            return None;
        }
        match replace_types_at(depth - 1, &effects[i].args, new_bindings, cache) {
            Some(args) => {
                let effect = Effect { id: effects[i].id, args };
                r.push(effect);
                assert(effect_tys(r@) =~= effect_tys(done) + seq![effect@]);
                proof {
                    lemma_prepend_twice(
                        effect_tys(done),
                        effect@,
                        replace_seq(depth as nat, rest.skip(1), types_of(new_bindings@), cache@),
                    );
                }
            },
            None => {
                return None;
            },
        }
        i += 1;
    }
    assert(effect_tys(r@) + Seq::<Ty>::empty() =~= effect_tys(r@));
    Some(r)
}

/// Replaces all the variables in the type: each with what the bindings hold for it, and one that
/// they do not hold with a fresh variable, which is then added to them.
pub fn replace_all_typevars_with_bindings(
    typ: &Type,
    new_bindings: &mut TypeBindings,
    cache: &mut ModuleCache,
) -> (r: Type)
    requires
        replace(MAX_DEPTH as nat, typ@, types_of(old(new_bindings)@), old(cache)@) is Some,
    ensures
        replace(MAX_DEPTH as nat, typ@, types_of(old(new_bindings)@), old(cache)@) == Some(
            (r@, types_of(final(new_bindings)@), final(cache)@),
        ),
{
    replace_at(MAX_DEPTH, typ, new_bindings, cache).unwrap()
}

/// Replaces a variable: a bound one with its type, whose variables are replaced, and an unbound
/// one with what the bindings hold for it or else a fresh variable.
pub fn replace_typevar_with_binding(
    id: TypeVariableId,
    new_bindings: &mut TypeBindings,
    cache: &mut ModuleCache,
) -> (r: Type)
    requires
        replace_variable(MAX_DEPTH as nat, id, types_of(old(new_bindings)@), old(cache)@) is Some,
    ensures
        replace_variable(MAX_DEPTH as nat, id, types_of(old(new_bindings)@), old(cache)@) == Some(
            (r@, types_of(final(new_bindings)@), final(cache)@),
        ),
{
    replace_variable_at(MAX_DEPTH, id, new_bindings, cache).unwrap()
}

/// The types with all their variables replaced with fresh ones, and the bindings used. Unlike
/// instantiating a generalized type, this replaces all unbound variables, those of an outer scope
/// too.
pub fn replace_all_typevars(types: &[Type], cache: &mut ModuleCache) -> (r: (
    Vec<Type>,
    TypeBindings,
))
    requires
        replace_seq(MAX_DEPTH as nat, tys(types@), Map::empty(), old(cache)@) is Some,
    ensures
        replace_seq(MAX_DEPTH as nat, tys(types@), Map::empty(), old(cache)@) == Some(
            (tys(r.0@), types_of(r.1@), final(cache)@),
        ),
{
    let mut bindings: TypeBindings = HashMap::new();
    assert(types_of(bindings@) =~= Map::empty());
    let types = replace_types_at(MAX_DEPTH, types, &mut bindings, cache).unwrap();
    (types, bindings)
}

/// Makes a fresh type variable at the current level.
pub fn next_type_variable_id(cache: &mut ModuleCache) -> (r: TypeVariableId)
    ensures
        r == old(cache)@.next_id(),
        r.0 == old(cache)@.type_bindings.len(),
        final(cache)@ == old(cache)@.fresh(old(cache)@.current_level),
{
    let level = cache.current_level;
    cache.next_type_variable_id(level)
}

/// Makes a fresh type variable at the current level, as a type.
pub fn next_type_variable(cache: &mut ModuleCache) -> (r: Type)
    ensures
        r@ == Ty::Variable(old(cache)@.next_id()),
        old(cache)@.next_id().0 == old(cache)@.type_bindings.len(),
        final(cache)@ == old(cache)@.fresh(old(cache)@.current_level),
{
    let level = cache.current_level;
    cache.next_type_variable(level)
}

} // verus!
