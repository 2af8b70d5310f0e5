//! The type variables inside a type: collecting them, searching for them, and generalizing over
//! them.

use crate::cache::{
    constraints, lookup, Binding, Cache, Constraint, GeneralizedType, ModuleCache, Scheme,
    TraitConstraint, TypeBinding,
};
use crate::resolve::MAX_DEPTH;
use crate::types::{
    effect_tys, field_tys, tys, Effect, Field, LetBindingLevel, Ty, Type, TypeVariableId,
};
use crate::unify::RECURSION_LIMIT;
use vstd::prelude::*;

verus! {

/// Whether variables of the level are generalized at the current level.
pub open spec fn is_polymorphic(level: LetBindingLevel, c: Cache) -> bool {
    level.0 >= c.current_level.0
}

/// One list of variables after the other, if there are both.
pub open spec fn join(
    first: Option<Seq<TypeVariableId>>,
    second: Option<Seq<TypeVariableId>>,
) -> Option<Seq<TypeVariableId>> {
    match (first, second) {
        (Some(a), Some(b)) => Some(a + b),
        _ => None,
    }
}

/// The unbound variables inside the type, in the order in which they are met and as often, with
/// bindings followed through the cache; only the polymorphic ones if so asked. `None` if more
/// than `fuel` bindings are nested, the type is nested more than `depth` deep or a variable is
/// not in the cache.
pub open spec fn vars_in(depth: nat, fuel: nat, t: Ty, only: bool, c: Cache) -> Option<
    Seq<TypeVariableId>,
>
    decreases depth, 0nat, 0nat,
{
    if depth == 0 {
        None
    } else {
        let d = (depth - 1) as nat;
        match t {
            Ty::Primitive(_) => Some(Seq::empty()),
            Ty::UserDefined(_) => Some(Seq::empty()),
            Ty::Tag(_) => Some(Seq::empty()),
            Ty::Variable(id) => vars_in_variable(d, fuel, id, only, c),
            Ty::NamedGeneric(id, _) => vars_in_variable(d, fuel, id, only, c),
            Ty::Function { parameters, return_type, environment, effects, has_varargs } => join(
                join(
                    join(
                        vars_in_seq(d, fuel, parameters, only, c),
                        vars_in(d, fuel, *environment, only, c),
                    ),
                    vars_in(d, fuel, *return_type, only, c),
                ),
                vars_in(d, fuel, *effects, only, c),
            ),
            Ty::Application(constructor, args) => join(
                vars_in(d, fuel, *constructor, only, c),
                vars_in_seq(d, fuel, args, only, c),
            ),
            Ty::Ref { sharedness, mutability, lifetime } => join(
                join(
                    vars_in(d, fuel, *mutability, only, c),
                    vars_in(d, fuel, *sharedness, only, c),
                ),
                vars_in(d, fuel, *lifetime, only, c),
            ),
            Ty::Struct(_, types, rest) => match lookup(c.type_bindings, rest) {
                None => None,
                Some(Binding::Bound(b)) => vars_in(d, fuel, b, only, c),
                Some(Binding::Unbound(_, _)) => join(
                    vars_in_variable(d, fuel, rest, only, c),
                    vars_in_seq(d, fuel, types, only, c),
                ),
            },
            Ty::Effect(_, args) => vars_in_seq(d, fuel, args, only, c),
            Ty::Effects(effects, extension) => match extension {
                None => vars_in_seq(d, fuel, effects, only, c),
                Some(id) => join(
                    vars_in_seq(d, fuel, effects, only, c),
                    vars_in_variable(d, fuel, id, only, c),
                ),
            },
        }
    }
}

/// The variables collected from each of the types, in order.
pub open spec fn vars_in_seq(depth: nat, fuel: nat, ts: Seq<Ty>, only: bool, c: Cache) -> Option<
    Seq<TypeVariableId>,
>
    decreases depth, 1nat, ts.len(),
{
    if ts.len() == 0 {
        Some(Seq::empty())
    } else {
        join(
            vars_in_seq(depth, fuel, ts.drop_last(), only, c),
            vars_in(depth, fuel, ts.last(), only, c),
        )
    }
}

/// The variables collected from a variable: itself, or those of its binding.
pub open spec fn vars_in_variable(
    depth: nat,
    fuel: nat,
    id: TypeVariableId,
    only: bool,
    c: Cache,
) -> Option<Seq<TypeVariableId>>
    decreases depth, 1nat, 0nat,
{
    if fuel == 0 {
        None
    } else {
        match lookup(c.type_bindings, id) {
            None => None,
            Some(Binding::Bound(b)) => vars_in(depth, (fuel - 1) as nat, b, only, c),
            Some(Binding::Unbound(level, _)) => if !only || is_polymorphic(level, c) {
                Some(seq![id])
            } else {
                Some(Seq::empty())
            },
        }
    }
}

/// The variables of a type that `find_all_typevars` finds.
pub open spec fn all_vars(t: Ty, only: bool, c: Cache) -> Option<Seq<TypeVariableId>> {
    vars_in(MAX_DEPTH as nat, RECURSION_LIMIT as nat, t, only, c)
}

/// Whether optional ids are those their model says.
pub open spec fn are_ids(
    r: Option<Vec<TypeVariableId>>,
    m: Option<Seq<TypeVariableId>>,
) -> bool {
    match m {
        Some(ids) => r is Some && r->0@ == ids,
        None => r is None,
    }
}

/// Whether variables of the level are generalized at the current level.
pub fn level_is_polymorphic(level: LetBindingLevel, cache: &ModuleCache) -> (r: bool)
    ensures
        r == is_polymorphic(level, cache@),
{
    level.0 >= cache.current_level.0
}

/// `find_all_typevars` for types of any shape: `None` where the result would not be defined.
pub fn find_all_typevars_helper(
    depth: u64,
    typ: &Type,
    polymorphic_only: bool,
    cache: &ModuleCache,
    fuel: u32,
) -> (r: Option<Vec<TypeVariableId>>)
    ensures
        are_ids(r, vars_in(depth as nat, fuel as nat, typ@, polymorphic_only, cache@)),
    decreases depth, 0nat,
{
    if depth == 0 {
        return None;
    }
    let d: u64 = depth - 1;
    match typ {
        Type::Primitive(_) => Some(Vec::new()),
        Type::UserDefined(_) => Some(Vec::new()),
        Type::Tag(_) => Some(Vec::new()),
        Type::TypeVariable(id) => find_typevars_in_typevar_binding(
            d,
            *id,
            polymorphic_only,
            cache,
            fuel,
        ),
        Type::NamedGeneric(id, _) => find_typevars_in_typevar_binding(
            d,
            *id,
            polymorphic_only,
            cache,
            fuel,
        ),
        Type::Function(function) => {
            let mut r = find_typevars_in_types(
                d,
                &function.parameters,
                polymorphic_only,
                cache,
                fuel,
            )?;
            let mut environment = find_all_typevars_helper(
                d,
                &function.environment,
                polymorphic_only,
                cache,
                fuel,
            )?;
            r.append(&mut environment);
            let mut return_type = find_all_typevars_helper(
                d,
                &function.return_type,
                polymorphic_only,
                cache,
                fuel,
            )?;
            r.append(&mut return_type);
            let mut effects = find_all_typevars_helper(
                d,
                &function.effects,
                polymorphic_only,
                cache,
                fuel,
            )?;
            r.append(&mut effects);
            Some(r)
        },
        Type::TypeApplication(constructor, args) => {
            let mut r = find_all_typevars_helper(d, constructor, polymorphic_only, cache, fuel)?;
            let mut args = find_typevars_in_types(d, args, polymorphic_only, cache, fuel)?;
            r.append(&mut args);
            Some(r)
        },
        Type::Ref { sharedness, mutability, lifetime } => {
            let mut r = find_all_typevars_helper(d, mutability, polymorphic_only, cache, fuel)?;
            let mut sharedness = find_all_typevars_helper(
                d,
                sharedness,
                polymorphic_only,
                cache,
                fuel,
            )?;
            r.append(&mut sharedness);
            let mut lifetime = find_all_typevars_helper(
                d,
                lifetime,
                polymorphic_only,
                cache,
                fuel,
            )?;
            r.append(&mut lifetime);
            Some(r)
        },
        Type::Struct(fields, rest) => {
            if rest.0 >= cache.type_bindings.len() {
                return None;
            }
            match &cache.type_bindings[rest.0] {
                TypeBinding::Bound(t) => find_all_typevars_helper(
                    d,
                    t,
                    polymorphic_only,
                    cache,
                    fuel,
                ),
                TypeBinding::Unbound(_, _) => {
                    let mut r = find_typevars_in_typevar_binding(
                        d,
                        *rest,
                        polymorphic_only,
                        cache,
                        fuel,
                    )?;
                    let mut fields = find_typevars_in_fields(
                        d,
                        fields,
                        polymorphic_only,
                        cache,
                        fuel,
                    )?;
                    r.append(&mut fields);
                    Some(r)
                },
            }
        },
        Type::Effects(set) => {
            let mut r = find_typevars_in_effects(
                d,
                &set.effects,
                polymorphic_only,
                cache,
                fuel,
            )?;
            match set.extension {
                None => Some(r),
                Some(id) => {
                    let mut extension = find_typevars_in_typevar_binding(
                        d,
                        id,
                        polymorphic_only,
                        cache,
                        fuel,
                    )?;
                    r.append(&mut extension);
                    Some(r)
                },
            }
        },
    }
}

fn find_typevars_in_types(
    depth: u64,
    types: &[Type],
    polymorphic_only: bool,
    cache: &ModuleCache,
    fuel: u32,
) -> (r: Option<Vec<TypeVariableId>>)
    ensures
        are_ids(r, vars_in_seq(depth as nat, fuel as nat, tys(types@), polymorphic_only, cache@)),
    decreases depth, 1nat,
{
    let ghost ts = tys(types@);
    let mut r: Vec<TypeVariableId> = Vec::new();
    let mut i: usize = 0;
    assert(ts.take(0) =~= Seq::empty());
    while i < types.len()
        invariant
            i <= types.len(),
            ts == tys(types@),
            vars_in_seq(depth as nat, fuel as nat, ts.take(i as int), polymorphic_only, cache@)
                == Some(r@),
        decreases types.len() - i,
    {
        proof {
            assert(ts.take(i + 1).drop_last() =~= ts.take(i as int));
            assert(ts.take(i + 1).last() == types@[i as int]@);
        }
        match find_all_typevars_helper(depth, &types[i], polymorphic_only, cache, fuel) {
            None => {
                proof {
                    lemma_vars_in_seq_none(
                        depth as nat,
                        fuel as nat,
                        ts,
                        i + 1,
                        polymorphic_only,
                        cache@,
                    );
                }
                return None;
            },
            Some(more) => {
                let mut more = more;
                r.append(&mut more);
            },
        }
        i += 1;
    }
    assert(ts.take(i as int) =~= ts);
    Some(r)
}

fn find_typevars_in_fields(
    depth: u64,
    fields: &Vec<Field>,
    polymorphic_only: bool,
    cache: &ModuleCache,
    fuel: u32,
) -> (r: Option<Vec<TypeVariableId>>)
    ensures
        are_ids(
            r,
            vars_in_seq(depth as nat, fuel as nat, field_tys(fields@), polymorphic_only, cache@),
        ),
    decreases depth, 1nat,
{
    let ghost ts = field_tys(fields@);
    let mut r: Vec<TypeVariableId> = Vec::new();
    let mut i: usize = 0;
    assert(ts.take(0) =~= Seq::empty());
    while i < fields.len()
        invariant
            i <= fields.len(),
            ts == field_tys(fields@),
            vars_in_seq(depth as nat, fuel as nat, ts.take(i as int), polymorphic_only, cache@)
                == Some(r@),
        decreases fields.len() - i,
    {
        proof {
            assert(ts.take(i + 1).drop_last() =~= ts.take(i as int));
            assert(ts.take(i + 1).last() == fields@[i as int].typ@);
        }
        match find_all_typevars_helper(depth, &fields[i].typ, polymorphic_only, cache, fuel) {
            None => {
                proof {
                    lemma_vars_in_seq_none(
                        depth as nat,
                        fuel as nat,
                        ts,
                        i + 1,
                        polymorphic_only,
                        cache@,
                    );
                }
                return None;
            },
            Some(more) => {
                let mut more = more;
                r.append(&mut more);
            },
        }
        i += 1;
    }
    assert(ts.take(i as int) =~= ts);
    Some(r)
}

/// The variables inside the arguments of the effects.
fn find_typevars_in_effects(
    depth: u64,
    effects: &Vec<Effect>,
    polymorphic_only: bool,
    cache: &ModuleCache,
    fuel: u32,
) -> (r: Option<Vec<TypeVariableId>>)
    ensures
        are_ids(
            r,
            vars_in_seq(depth as nat, fuel as nat, effect_tys(effects@), polymorphic_only, cache@),
        ),
    decreases depth, 1nat,
{
    let ghost ts = effect_tys(effects@);
    let mut r: Vec<TypeVariableId> = Vec::new();
    let mut i: usize = 0;
    assert(ts.take(0) =~= Seq::empty());
    while i < effects.len()
        invariant
            i <= effects.len(),
            ts == effect_tys(effects@),
            vars_in_seq(depth as nat, fuel as nat, ts.take(i as int), polymorphic_only, cache@)
                == Some(r@),
        decreases effects.len() - i,
    {
        proof {
            assert(ts.take(i + 1).drop_last() =~= ts.take(i as int));
            assert(ts.take(i + 1).last() == effects@[i as int]@);
            assert(vars_in(
                depth as nat,
                fuel as nat,
                effects@[i as int]@,
                polymorphic_only,
                cache@,
            ) == if depth == 0 {
                None
            } else {
                vars_in_seq(
                    (depth - 1) as nat,
                    fuel as nat,
                    tys(effects@[i as int].args@),
                    polymorphic_only,
                    cache@,
                )
            });
        }
        let found = if depth == 0 {
            None
        } else {
            find_typevars_in_types(
                depth - 1,
                &effects[i].args,
                polymorphic_only,
                cache,
                fuel,
            )
        };
        match found {
            None => {
                proof {
                    lemma_vars_in_seq_none(
                        depth as nat,
                        fuel as nat,
                        ts,
                        i + 1,
                        polymorphic_only,
                        cache@,
                    );
                }
                return None;
            },
            Some(more) => {
                let mut more = more;
                r.append(&mut more);
            },
        }
        i += 1;
    }
    assert(ts.take(i as int) =~= ts);
    Some(r)
}

proof fn lemma_vars_in_seq_none(depth: nat, fuel: nat, ts: Seq<Ty>, n: int, only: bool, c: Cache)
    requires
        0 <= n <= ts.len(),
        vars_in_seq(depth, fuel, ts.take(n), only, c) is None,
    ensures
        vars_in_seq(depth, fuel, ts, only, c) is None,
    decreases ts.len(),
{
    if n < ts.len() {
        assert(ts.drop_last().take(n) =~= ts.take(n));
        lemma_vars_in_seq_none(depth, fuel, ts.drop_last(), n, only, c);
    } else {
        assert(ts.take(n) =~= ts);
    }
}

/// The variables inside what a variable is bound to, or the variable itself.
pub fn find_typevars_in_typevar_binding(
    depth: u64,
    id: TypeVariableId,
    polymorphic_only: bool,
    cache: &ModuleCache,
    fuel: u32,
) -> (r: Option<Vec<TypeVariableId>>)
    ensures
        are_ids(r, vars_in_variable(depth as nat, fuel as nat, id, polymorphic_only, cache@)),
    decreases depth, 1nat,
{
    if fuel == 0 {
        return None;
    }
    if id.0 >= cache.type_bindings.len() {
        return None;
    }
    match &cache.type_bindings[id.0] {
        TypeBinding::Bound(t) => find_all_typevars_helper(
            depth,
            t,
            polymorphic_only,
            cache,
            fuel - 1,
        ),
        TypeBinding::Unbound(level, _) => {
            if !polymorphic_only || level_is_polymorphic(*level, cache) {
                let r = vec![id];
                assert(r@ =~= seq![id]);
                Some(r)
            } else {
                Some(Vec::new())
            }
        },
    }
}

/// Collects all the type variables contained within the type. If `polymorphic_only` is true, only
/// those of the current level or a higher one are kept.
pub fn find_all_typevars(typ: &Type, polymorphic_only: bool, cache: &ModuleCache) -> (r: Vec<
    TypeVariableId,
>)
    requires
        all_vars(typ@, polymorphic_only, cache@) is Some,
    ensures
        all_vars(typ@, polymorphic_only, cache@) == Some(r@),
{
    find_all_typevars_helper(MAX_DEPTH, typ, polymorphic_only, cache, RECURSION_LIMIT).unwrap()
}

/// The variables inside the arguments of the first `n` constraints.
pub open spec fn vars_in_constraints(n: nat, traits: Seq<Constraint>, c: Cache) -> Option<
    Seq<TypeVariableId>,
>
    decreases n,
{
    if n == 0 {
        Some(Seq::empty())
    } else {
        join(
            vars_in_constraints((n - 1) as nat, traits, c),
            vars_in_args(
                traits[n - 1].required.signature.args.len(),
                traits[n - 1].required.signature.args,
                c,
            ),
        )
    }
}

/// The polymorphic variables inside the first `n` arguments.
pub open spec fn vars_in_args(n: nat, args: Seq<Ty>, c: Cache) -> Option<Seq<TypeVariableId>>
    decreases n,
{
    if n == 0 {
        Some(Seq::empty())
    } else {
        join(vars_in_args((n - 1) as nat, args, c), all_vars(args[n - 1], true, c))
    }
}

proof fn lemma_vars_in_args_none(n: nat, m: nat, args: Seq<Ty>, c: Cache)
    requires
        n <= m,
        vars_in_args(n, args, c) is None,
    ensures
        vars_in_args(m, args, c) is None,
    decreases m,
{
    if n < m {
        lemma_vars_in_args_none(n, (m - 1) as nat, args, c);
    }
}

proof fn lemma_vars_in_constraints_none(n: nat, m: nat, traits: Seq<Constraint>, c: Cache)
    requires
        n <= m,
        vars_in_constraints(n, traits, c) is None,
    ensures
        vars_in_constraints(m, traits, c) is None,
    decreases m,
{
    if n < m {
        lemma_vars_in_constraints_none(n, (m - 1) as nat, traits, c);
    }
}

/// The polymorphic variables inside the arguments of a constraint.
fn find_typevars_in_args(args: &[Type], cache: &ModuleCache) -> (r: Option<Vec<TypeVariableId>>)
    ensures
        are_ids(r, vars_in_args(args@.len(), tys(args@), cache@)),
{
    let ghost ts = tys(args@);
    let mut r: Vec<TypeVariableId> = Vec::new();
    let mut i: usize = 0;
    while i < args.len()
        invariant
            i <= args.len(),
            ts == tys(args@),
            vars_in_args(i as nat, ts, cache@) == Some(r@),
        decreases args.len() - i,
    {
        assert(ts[i as int] == args@[i as int]@);
        match find_all_typevars_helper(MAX_DEPTH, &args[i], true, cache, RECURSION_LIMIT) {
            None => {
                proof {
                    lemma_vars_in_args_none((i + 1) as nat, args@.len(), ts, cache@);
                }
                return None;
            },
            Some(more) => {
                let mut more = more;
                r.append(&mut more);
            },
        }
        i += 1;
    }
    Some(r)
}

/// All the polymorphic variables inside the arguments of the constraints.
pub fn find_all_typevars_in_traits(traits: &Vec<TraitConstraint>, cache: &ModuleCache) -> (r:
    Option<Vec<TypeVariableId>>)
    ensures
        are_ids(r, vars_in_constraints(traits@.len(), constraints(traits@), cache@)),
{
    let ghost cs = constraints(traits@);
    let mut r: Vec<TypeVariableId> = Vec::new();
    let mut i: usize = 0;
    while i < traits.len()
        invariant
            i <= traits.len(),
            cs == constraints(traits@),
            vars_in_constraints(i as nat, cs, cache@) == Some(r@),
        decreases traits.len() - i,
    {
        assert(cs[i as int] == traits@[i as int]@);
        match find_typevars_in_args(&traits[i].required.signature.args, cache) {
            None => {
                proof {
                    lemma_vars_in_constraints_none((i + 1) as nat, traits@.len(), cs, cache@);
                }
                return None;
            },
            Some(more) => {
                let mut more = more;
                r.append(&mut more);
            },
        }
        i += 1;
    }
    Some(r)
}

/// Whether the ids are in ascending order, without any id twice.
pub open spec fn ascending(ids: Seq<TypeVariableId>) -> bool {
    forall|i: int, j: int| 0 <= i < j < ids.len() ==> (#[trigger] ids[i]).0 < (#[trigger] ids[j]).0
}

/// How many ids at the front are lower than the given one.
pub open spec fn place_of_id(ids: Seq<TypeVariableId>, id: TypeVariableId) -> int
    decreases ids.len(),
{
    if ids.len() == 0 {
        0
    } else if place_of_id(ids.drop_last(), id) == ids.len() - 1 && ids.last().0 < id.0 {
        ids.len() as int
    } else {
        place_of_id(ids.drop_last(), id)
    }
}

/// The ids with the given one added at its place, unless it is there already.
pub open spec fn with_id(ids: Seq<TypeVariableId>, id: TypeVariableId) -> Seq<TypeVariableId> {
    let at = place_of_id(ids, id);
    if at < ids.len() && ids[at] == id {
        ids
    } else {
        ids.insert(at, id)
    }
}

/// The ids in ascending order, each once.
pub open spec fn sorted_ids(ids: Seq<TypeVariableId>) -> Seq<TypeVariableId>
    decreases ids.len(),
{
    if ids.len() == 0 {
        Seq::empty()
    } else {
        with_id(sorted_ids(ids.drop_last()), ids.last())
    }
}

/// The type generalized over the given variables.
pub open spec fn generalized(t: Ty, found: Seq<TypeVariableId>) -> Scheme {
    if found.len() == 0 {
        Scheme::Mono(t)
    } else {
        Scheme::Poly(sorted_ids(found), t)
    }
}

/// The type generalized over all its variables of the current level or a higher one.
pub open spec fn generalization(t: Ty, c: Cache) -> Option<Scheme> {
    match all_vars(t, true, c) {
        None => None,
        Some(found) => Some(generalized(t, found)),
    }
}

proof fn lemma_place_of_id(ids: Seq<TypeVariableId>, id: TypeVariableId)
    ensures
        0 <= place_of_id(ids, id) <= ids.len(),
        forall|j: int| 0 <= j < place_of_id(ids, id) ==> (#[trigger] ids[j]).0 < id.0,
        place_of_id(ids, id) < ids.len() ==> ids[place_of_id(ids, id)].0 >= id.0,
    decreases ids.len(),
{
    if ids.len() > 0 {
        let front = ids.drop_last();
        lemma_place_of_id(front, id);
        assert forall|j: int| 0 <= j < front.len() implies #[trigger] ids[j] == front[j] by {}
    }
}

/// Adding an id keeps the order, and adds nothing else.
proof fn lemma_with_id(ids: Seq<TypeVariableId>, id: TypeVariableId)
    requires
        ascending(ids),
    ensures
        ascending(with_id(ids, id)),
        forall|x: TypeVariableId| #[trigger]
            with_id(ids, id).contains(x) <==> ids.contains(x) || x == id,
{
    let at = place_of_id(ids, id);
    let r = with_id(ids, id);
    lemma_place_of_id(ids, id);
    if at < ids.len() && ids[at] == id {
    } else {
        assert forall|j: int| at <= j < ids.len() implies (#[trigger] ids[j]).0 > id.0 by {
            if j > at {
                assert(ids[at].0 < ids[j].0);
            }
        }
        assert forall|x: TypeVariableId| #[trigger] r.contains(x) <==> ids.contains(x) || x
            == id by {
            if ids.contains(x) {
                let i = choose|i: int| 0 <= i < ids.len() && ids[i] == x;
                assert(r[if i < at {
                    i
                } else {
                    i + 1
                }] == x);
            }
            if x == id {
                assert(r[at] == x);
            }
            if r.contains(x) && x != id {
                let i = choose|i: int| 0 <= i < r.len() && r[i] == x;
                assert(ids[if i < at {
                    i
                } else {
                    i - 1
                }] == x);
            }
        }
    }
}

/// A generalized type is quantified over exactly the variables found, each once and in ascending
/// order.
pub proof fn law_sorted_ids(ids: Seq<TypeVariableId>)
    ensures
        ascending(sorted_ids(ids)),
        forall|x: TypeVariableId| #[trigger] sorted_ids(ids).contains(x) <==> ids.contains(x),
    decreases ids.len(),
{
    if ids.len() > 0 {
        let front = ids.drop_last();
        law_sorted_ids(front);
        lemma_with_id(sorted_ids(front), ids.last());
        assert forall|x: TypeVariableId| #[trigger]
            sorted_ids(ids).contains(x) <==> ids.contains(x) by {
            if front.contains(x) {
                let i = choose|i: int| 0 <= i < front.len() && front[i] == x;
                assert(ids[i] == x);
            }
            if ids.contains(x) && x != ids.last() {
                let i = choose|i: int| 0 <= i < ids.len() && ids[i] == x;
                assert(front[i] == x);
            }
            if x == ids.last() {
                assert(ids[ids.len() - 1] == x);
            }
        }
    }
}

/// Adds the id at its place, unless it is there already.
fn insert_id(ids: &mut Vec<TypeVariableId>, id: TypeVariableId)
    ensures
        final(ids)@ == with_id(old(ids)@, id),
{
    let ghost before = ids@;
    let mut at: usize = 0;
    while at < ids.len() && ids[at].0 < id.0
        invariant
            at <= ids.len(),
            ids@ == before,
            forall|j: int| 0 <= j < at ==> (#[trigger] before[j]).0 < id.0,
        decreases ids.len() - at,
    {
        at += 1;
    }
    proof {
        lemma_place_of_id(before, id);
        assert(at == place_of_id(before, id));
    }
    if at < ids.len() && ids[at] == id {
        return;
    }
    ids.insert(at, id);
}

/// Wraps the type in a polytype over all the variables declared inside the current level, as in
/// `generalize (a -> b -> b) = forall a b. a -> b -> b`. `None` where collecting the variables is
/// not defined.
pub fn generalize(typ: &Type, cache: &ModuleCache) -> (r: Option<GeneralizedType>)
    ensures
        match generalization(typ@, cache@) {
            None => r is None,
            Some(scheme) => r is Some && r->0@ == scheme,
        },
{
    let found = find_all_typevars_helper(MAX_DEPTH, typ, true, cache, RECURSION_LIMIT)?;
    if found.len() == 0 {
        return Some(GeneralizedType::MonoType(typ.clone()));
    }
    let mut vars: Vec<TypeVariableId> = Vec::new();
    let mut i: usize = 0;
    assert(found@.take(0) =~= Seq::empty());
    while i < found.len()
        invariant
            i <= found.len(),
            vars@ == sorted_ids(found@.take(i as int)),
        decreases found.len() - i,
    {
        proof {
            assert(found@.take(i + 1).drop_last() =~= found@.take(i as int));
            assert(found@.take(i + 1).last() == found@[i as int]);
        }
        insert_id(&mut vars, found[i]);
        i += 1;
    }
    assert(found@.take(i as int) =~= found@);
    Some(GeneralizedType::PolyType(vars, typ.clone()))
}

} // verus!
