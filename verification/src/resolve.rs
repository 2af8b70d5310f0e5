//! Looking type variables up: what a variable is bound to, and where a chain of bindings ends.

use crate::bindings::{get_binding, insert_binding, types_of, TypeBindings, UnificationBindings};
use crate::cache::{lookup, Binding, ModuleCache, TypeBinding, TypeInfo};
use crate::types::{tys, Ty, Type, TypeVariableId};
use std::collections::HashMap;
use vstd::prelude::*;

verus! {

/// The bound on the nesting of the recursive functions here. No program reaches it: the stack
/// ends far earlier.
pub const MAX_DEPTH: u64 = 0xffff_ffff_ffff_ffff;

/// Whether an optional type is the one its model says.
pub open spec fn is_type(r: Option<Type>, m: Option<Ty>) -> bool {
    match m {
        Some(t) => r is Some && r->0@ == t,
        None => r is None,
    }
}

/// Whether optional types are those their model says.
pub open spec fn are_types(r: Option<Vec<Type>>, m: Option<Seq<Ty>>) -> bool {
    match m {
        Some(ts) => r is Some && tys(r->0@) == ts,
        None => r is None,
    }
}

/// What a variable stands for: the cache decides, and for a variable that the cache leaves
/// unbound the given bindings do. `None` for a variable that the cache does not have.
pub open spec fn binding_of(
    id: TypeVariableId,
    types: Map<usize, Ty>,
    vars: Seq<Binding>,
) -> Option<Binding> {
    match lookup(vars, id) {
        Some(Binding::Unbound(level, kind)) => if types.contains_key(id.0) {
            Some(Binding::Bound(types[id.0]))
        } else {
            Some(Binding::Unbound(level, kind))
        },
        other => other,
    }
}

/// The end of the chain of bindings that starts at `t`: a type that is no variable, or a variable
/// that is not bound. `None` if the chain is longer than `depth` or leaves the cache.
pub open spec fn follow(
    depth: nat,
    t: Ty,
    types: Map<usize, Ty>,
    vars: Seq<Binding>,
) -> Option<Ty>
    decreases depth,
{
    if depth == 0 {
        None
    } else {
        match t {
            Ty::Variable(id) => match binding_of(id, types, vars) {
                Some(Binding::Bound(b)) => follow((depth - 1) as nat, b, types, vars),
                Some(Binding::Unbound(_, _)) => Some(t),
                None => None,
            },
            _ => Some(t),
        }
    }
}

/// Whether the variable is bound, in the cache or by the given bindings.
pub fn has_binding(id: TypeVariableId, map: &UnificationBindings, cache: &ModuleCache) -> (r: bool)
    requires
        id.0 < cache@.type_bindings.len(),
    ensures
        r == (binding_of(id, map@.types, cache@.type_bindings) matches Some(Binding::Bound(_))),
{
    match &cache.type_bindings[id.0] {
        TypeBinding::Bound(_) => true,
        TypeBinding::Unbound(_, _) => get_binding(&map.bindings, id).is_some(),
    }
}

/// What the variable stands for, in the cache or by the given bindings.
pub fn find_binding(id: TypeVariableId, map: &UnificationBindings, cache: &ModuleCache) -> (r:
    TypeBinding)
    requires
        id.0 < cache@.type_bindings.len(),
    ensures
        binding_of(id, map@.types, cache@.type_bindings) == Some(r@),
{
    match &cache.type_bindings[id.0] {
        TypeBinding::Bound(typ) => TypeBinding::Bound(typ.clone()),
        TypeBinding::Unbound(level, kind) => match get_binding(&map.bindings, id) {
            Some(typ) => TypeBinding::Bound(typ.clone()),
            None => TypeBinding::Unbound(*level, *kind),
        },
    }
}

/// `follow_bindings_in_cache_and_map` for chains of any shape: `None` where the chain does not
/// end within `depth` steps.
pub fn follow_at(
    depth: u64,
    typ: &Type,
    bindings: &UnificationBindings,
    cache: &ModuleCache,
) -> (r: Option<Type>)
    ensures
        is_type(r, follow(depth as nat, typ@, bindings@.types, cache@.type_bindings)),
    decreases depth,
{
    if depth == 0 {
        return None;
    }
    match typ {
        Type::TypeVariable(id) => {
            if id.0 >= cache.type_bindings.len() {
                return None;
            }
            match find_binding(*id, bindings, cache) {
                TypeBinding::Bound(b) => follow_at(depth - 1, &b, bindings, cache),
                TypeBinding::Unbound(_, _) => Some(typ.clone()),
            }
        },
        _ => Some(typ.clone()),
    }
}

/// What a type is bound to: follows all links from variable to variable until the type is no
/// variable or the variable is unbound.
pub fn follow_bindings_in_cache_and_map(
    typ: &Type,
    bindings: &UnificationBindings,
    cache: &ModuleCache,
) -> (r: Type)
    requires
        follow(MAX_DEPTH as nat, typ@, bindings@.types, cache@.type_bindings) is Some,
    ensures
        follow(MAX_DEPTH as nat, typ@, bindings@.types, cache@.type_bindings) == Some(r@),
{
    follow_at(MAX_DEPTH, typ, bindings, cache).unwrap()
}

/// `follow_bindings_in_cache` for chains of any shape.
pub fn follow_in_cache_at(depth: u64, typ: &Type, cache: &ModuleCache) -> (r: Option<Type>)
    ensures
        is_type(r, follow(depth as nat, typ@, Map::empty(), cache@.type_bindings)),
    decreases depth,
{
    if depth == 0 {
        return None;
    }
    match typ {
        Type::TypeVariable(id) => {
            if id.0 >= cache.type_bindings.len() {
                return None;
            }
            match &cache.type_bindings[id.0] {
                TypeBinding::Bound(b) => follow_in_cache_at(depth - 1, b, cache),
                TypeBinding::Unbound(_, _) => Some(typ.clone()),
            }
        },
        _ => Some(typ.clone()),
    }
}

/// What a type is bound to in the cache.
pub fn follow_bindings_in_cache(typ: &Type, cache: &ModuleCache) -> (r: Type)
    requires
        follow(MAX_DEPTH as nat, typ@, Map::empty(), cache@.type_bindings) is Some,
    ensures
        follow(MAX_DEPTH as nat, typ@, Map::empty(), cache@.type_bindings) == Some(r@),
{
    follow_in_cache_at(MAX_DEPTH, typ, cache).unwrap()
}

/// Following is complete: the result is not a variable that is bound.
pub proof fn law_follow_ends(depth: nat, t: Ty, types: Map<usize, Ty>, vars: Seq<Binding>)
    requires
        follow(depth, t, types, vars) is Some,
    ensures
        follow(depth, t, types, vars)->0 matches Ty::Variable(id) ==> binding_of(
            id,
            types,
            vars,
        ) matches Some(Binding::Unbound(_, _)),
    decreases depth,
{
    match t {
        Ty::Variable(id) => {
            if let Some(Binding::Bound(b)) = binding_of(id, types, vars) {
                law_follow_ends((depth - 1) as nat, b, types, vars);
            }
        },
        _ => {},
    }
}

/// Following what was followed already changes nothing.
pub proof fn law_follow_twice(depth: nat, t: Ty, types: Map<usize, Ty>, vars: Seq<Binding>)
    requires
        follow(depth, t, types, vars) is Some,
    ensures
        follow(depth, follow(depth, t, types, vars)->0, types, vars) == follow(
            depth,
            t,
            types,
            vars,
        ),
{
    law_follow_ends(depth, t, types, vars);
}

/// What the first `n` parameters of a user-defined type are replaced with where the type is used
/// at the given arguments: each argument, followed through the cache, for its parameter. An
/// argument that is the parameter itself gives no binding. The last of several arguments for one
/// parameter counts.
pub open spec fn application_bindings(
    n: nat,
    params: Seq<TypeVariableId>,
    args: Seq<Ty>,
    vars: Seq<Binding>,
) -> Option<Map<usize, Ty>>
    decreases n,
{
    if n == 0 {
        Some(Map::empty())
    } else {
        let i = n - 1;
        match (
            application_bindings((n - 1) as nat, params, args, vars),
            follow(MAX_DEPTH as nat, args[i], Map::empty(), vars),
        ) {
            (Some(m), Some(b)) => if b != Ty::Variable(params[i]) {
                Some(m.insert(params[i].0, b))
            } else {
                Some(m)
            },
            _ => None,
        }
    }
}

/// How many parameters have an argument.
pub open spec fn paired(params: Seq<TypeVariableId>, args: Seq<Ty>) -> nat {
    if params.len() <= args.len() {
        params.len()
    } else {
        args.len()
    }
}

/// Once an argument cannot be followed, nothing comes after it.
pub proof fn lemma_application_bindings_none(
    n: nat,
    m: nat,
    params: Seq<TypeVariableId>,
    args: Seq<Ty>,
    vars: Seq<Binding>,
)
    requires
        n <= m,
        application_bindings(n, params, args, vars) is None,
    ensures
        application_bindings(m, params, args, vars) is None,
    decreases m,
{
    if n < m {
        lemma_application_bindings_none(n, (m - 1) as nat, params, args, vars);
    }
}

/// `type_application_bindings` for arguments of any shape: `None` where following one of them
/// does not end.
pub fn application_bindings_at(info: &TypeInfo, typeargs: &[Type], cache: &ModuleCache) -> (r:
    Option<TypeBindings>)
    ensures
        match application_bindings(
            paired(info@.args, tys(typeargs@)),
            info@.args,
            tys(typeargs@),
            cache@.type_bindings,
        ) {
            Some(m) => r is Some && types_of(r->0@) == m,
            None => r is None,
        },
{
    let ghost params = info@.args;
    let ghost args = tys(typeargs@);
    let ghost vars = cache@.type_bindings;
    let mut r: TypeBindings = HashMap::new();
    let mut i: usize = 0;
    assert(types_of(r@) =~= Map::empty());
    while i < info.args.len() && i < typeargs.len()
        invariant
            i <= paired(params, args),
            params == info@.args,
            args == tys(typeargs@),
            vars == cache@.type_bindings,
            application_bindings(i as nat, params, args, vars) == Some(types_of(r@)),
        decreases typeargs.len() - i,
    {
        let a: TypeVariableId = info.args[i];
        assert(args[i as int] == typeargs@[i as int]@);
        match follow_in_cache_at(MAX_DEPTH, &typeargs[i], cache) {
            None => {
                proof {
                    lemma_application_bindings_none(
                        (i + 1) as nat,
                        paired(params, args),
                        params,
                        args,
                        vars,
                    );
                }
                return None;
            },
            Some(b) => {
                if b != Type::TypeVariable(a) {
                    insert_binding(&mut r, a, b);
                }
            },
        }
        i += 1;
    }
    Some(r)
}

/// Converts the use of a user-defined type at some arguments into the bindings from each of the
/// type's variables to its argument.
pub fn type_application_bindings(info: &TypeInfo, typeargs: &[Type], cache: &ModuleCache) -> (r:
    TypeBindings)
    requires
        application_bindings(
            paired(info@.args, tys(typeargs@)),
            info@.args,
            tys(typeargs@),
            cache@.type_bindings,
        ) is Some,
    ensures
        application_bindings(
            paired(info@.args, tys(typeargs@)),
            info@.args,
            tys(typeargs@),
            cache@.type_bindings,
        ) == Some(types_of(r@)),
{
    application_bindings_at(info, typeargs, cache).unwrap()
}

} // verus!
