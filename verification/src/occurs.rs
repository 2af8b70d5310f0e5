//! The occurs check: whether a type variable is found inside a type that it is to be bound to.

use crate::bindings::{LevelBindings, Solution, UnificationBindings};
use crate::cache::{Binding, ModuleCache, TypeBinding};
use crate::resolve::{binding_of, find_binding};
use crate::types::{
    effect_tys, field_tys, tys, Effect, Field, FunctionType, LetBindingLevel, Ty, Type,
    TypeVariableId,
};
use vstd::prelude::*;

verus! {

/// Whether the variable was found, and which other variables were found on the way whose level
/// has to be lowered.
pub type Found = (bool, Seq<(TypeVariableId, LetBindingLevel)>);

/// Two searches one after the other: the second counts only if the first found nothing.
pub open spec fn search_both(first: Option<Found>, second: Option<Found>) -> Option<Found> {
    match first {
        None => None,
        Some((true, levels)) => first,
        Some((false, levels)) => match second {
            None => None,
            Some((found, more)) => Some((found, levels + more)),
        },
    }
}

/// Whether the unbound variable `id` is found inside the type, following all bindings. Each other
/// unbound variable found before it with a level higher than `level` is to be lowered to `level`.
/// `None` if the search goes deeper than `fuel` or leaves the cache.
pub open spec fn occurs_in(
    fuel: nat,
    id: TypeVariableId,
    level: LetBindingLevel,
    t: Ty,
    types: Map<usize, Ty>,
    vars: Seq<Binding>,
) -> Option<Found>
    decreases fuel, 0nat, 0nat,
{
    if fuel == 0 {
        None
    } else {
        let f = (fuel - 1) as nat;
        match t {
            Ty::Primitive(_) => Some((false, Seq::empty())),
            Ty::UserDefined(_) => Some((false, Seq::empty())),
            Ty::Tag(_) => Some((false, Seq::empty())),
            Ty::Variable(v) => occurs_in_variable(f, id, level, v, types, vars),
            Ty::NamedGeneric(v, _) => occurs_in_variable(f, id, level, v, types, vars),
            Ty::Function { parameters, return_type, environment, effects, has_varargs } => {
                search_both(
                    search_both(
                        search_both(
                            occurs_in(f, id, level, *return_type, types, vars),
                            occurs_in(f, id, level, *environment, types, vars),
                        ),
                        occurs_in(f, id, level, *effects, types, vars),
                    ),
                    occurs_in_seq(f, id, level, parameters, types, vars),
                )
            },
            Ty::Application(constructor, args) => search_both(
                occurs_in(f, id, level, *constructor, types, vars),
                occurs_in_seq(f, id, level, args, types, vars),
            ),
            Ty::Ref { sharedness, mutability, lifetime } => search_both(
                search_both(
                    occurs_in(f, id, level, *mutability, types, vars),
                    occurs_in(f, id, level, *sharedness, types, vars),
                ),
                occurs_in(f, id, level, *lifetime, types, vars),
            ),
            Ty::Struct(_, fields, rest) => search_both(
                occurs_in_variable(f, id, level, rest, types, vars),
                occurs_in_seq(f, id, level, fields, types, vars),
            ),
            Ty::Effect(_, args) => occurs_in_seq(f, id, level, args, types, vars),
            Ty::Effects(effects, extension) => match extension {
                None => occurs_in_seq(f, id, level, effects, types, vars),
                Some(v) => search_both(
                    occurs_in_seq(f, id, level, effects, types, vars),
                    occurs_in_variable(f, id, level, v, types, vars),
                ),
            },
        }
    }
}

/// The search through a list of types, from the first on.
pub open spec fn occurs_in_seq(
    fuel: nat,
    id: TypeVariableId,
    level: LetBindingLevel,
    ts: Seq<Ty>,
    types: Map<usize, Ty>,
    vars: Seq<Binding>,
) -> Option<Found>
    decreases fuel, 1nat, ts.len(),
{
    if ts.len() == 0 {
        Some((false, Seq::empty()))
    } else {
        search_both(
            occurs_in(fuel, id, level, ts[0], types, vars),
            occurs_in_seq(fuel, id, level, ts.skip(1), types, vars),
        )
    }
}

/// The search through a variable: through its type if it is bound.
pub open spec fn occurs_in_variable(
    fuel: nat,
    id: TypeVariableId,
    level: LetBindingLevel,
    v: TypeVariableId,
    types: Map<usize, Ty>,
    vars: Seq<Binding>,
) -> Option<Found>
    decreases fuel, 1nat, 0nat,
{
    match binding_of(v, types, vars) {
        None => None,
        Some(Binding::Bound(b)) => occurs_in(fuel, id, level, b, types, vars),
        Some(Binding::Unbound(original, _)) => Some(
            (
                id == v,
                if level.0 < original.0 {
                    seq![(v, level)]
                } else {
                    Seq::empty()
                },
            ),
        ),
    }
}

/// What an occurs check found.
#[derive(Debug)]
pub struct OccursResult {
    pub occurs: bool,
    pub level_bindings: LevelBindings,
}

/// Whether the result of a search is the one its model says.
pub open spec fn is_found(r: Option<OccursResult>, m: Option<Found>) -> bool {
    match m {
        Some((occurs, levels)) => r is Some && r->0.occurs == occurs && r->0.level_bindings@
            == levels,
        None => r is None,
    }
}

impl OccursResult {
    /// Nothing was found.
    pub fn does_not_occur() -> (r: OccursResult)
        ensures
            !r.occurs,
            r.level_bindings@ == Seq::<(TypeVariableId, LetBindingLevel)>::empty(),
    {
        OccursResult { occurs: false, level_bindings: Vec::new() }
    }

    /// The result of a search.
    pub fn new(occurs: bool, level_bindings: LevelBindings) -> (r: OccursResult)
        ensures
            r.occurs == occurs,
            r.level_bindings == level_bindings,
    {
        OccursResult { occurs, level_bindings }
    }

    /// Adds the result of a search that followed this one, which found nothing.
    pub fn extend(&mut self, other: OccursResult)
        ensures
            final(self).occurs == other.occurs,
            final(self).level_bindings@ == old(self).level_bindings@ + other.level_bindings@,
    {
        let mut other = other;
        self.occurs = other.occurs;
        self.level_bindings.append(&mut other.level_bindings);
    }
}

/// Can the unbound variable `id` be found inside this type? `None` where the search goes deeper
/// than `fuel`.
pub fn occurs_helper(
    id: TypeVariableId,
    level: LetBindingLevel,
    typ: &Type,
    bindings: &UnificationBindings,
    fuel: u32,
    cache: &ModuleCache,
) -> (r: Option<OccursResult>)
    ensures
        is_found(
            r,
            occurs_in(fuel as nat, id, level, typ@, bindings@.types, cache@.type_bindings),
        ),
    decreases fuel, 0nat,
{
    if fuel == 0 {
        return None;
    }
    let fuel = fuel - 1;
    match typ {
        Type::Primitive(_) => Some(OccursResult::does_not_occur()),
        Type::UserDefined(_) => Some(OccursResult::does_not_occur()),
        Type::Tag(_) => Some(OccursResult::does_not_occur()),
        Type::TypeVariable(v) => typevars_match(id, level, *v, bindings, fuel, cache),
        Type::NamedGeneric(v, _) => typevars_match(id, level, *v, bindings, fuel, cache),
        Type::Function(function) => occurs_in_function(id, level, function, bindings, fuel, cache),
        Type::TypeApplication(constructor, args) => {
            let mut found = occurs_helper(id, level, constructor, bindings, fuel, cache)?;
            if !found.occurs {
                found.extend(occurs_in_types(id, level, args, bindings, fuel, cache)?);
            }
            Some(found)
        },
        Type::Ref { mutability, sharedness, lifetime } => {
            let mut found = occurs_helper(id, level, mutability, bindings, fuel, cache)?;
            if !found.occurs {
                found.extend(occurs_helper(id, level, sharedness, bindings, fuel, cache)?);
            }
            if !found.occurs {
                found.extend(occurs_helper(id, level, lifetime, bindings, fuel, cache)?);
            }
            Some(found)
        },
        Type::Struct(fields, v) => {
            let mut found = typevars_match(id, level, *v, bindings, fuel, cache)?;
            if !found.occurs {
                found.extend(occurs_in_fields(id, level, fields, bindings, fuel, cache)?);
            }
            Some(found)
        },
        Type::Effects(set) => {
            let mut found = occurs_in_effects(id, level, &set.effects, bindings, fuel, cache)?;
            match set.extension {
                None => Some(found),
                Some(v) => {
                    if !found.occurs {
                        found.extend(typevars_match(id, level, v, bindings, fuel, cache)?);
                    }
                    Some(found)
                },
            }
        },
    }
}

/// The occurs check for a function type. The fuel is that for the parts of the type.
pub fn occurs_in_function(
    id: TypeVariableId,
    level: LetBindingLevel,
    function: &FunctionType,
    bindings: &UnificationBindings,
    fuel: u32,
    cache: &ModuleCache,
) -> (r: Option<OccursResult>)
    ensures
        is_found(
            r,
            occurs_in(
                (fuel + 1) as nat,
                id,
                level,
                function@,
                bindings@.types,
                cache@.type_bindings,
            ),
        ),
    decreases fuel, 2nat,
{
    let mut found = occurs_helper(id, level, &function.return_type, bindings, fuel, cache)?;
    if !found.occurs {
        found.extend(occurs_helper(id, level, &function.environment, bindings, fuel, cache)?);
    }
    if !found.occurs {
        found.extend(occurs_helper(id, level, &function.effects, bindings, fuel, cache)?);
    }
    if !found.occurs {
        found.extend(occurs_in_types(id, level, &function.parameters, bindings, fuel, cache)?);
    }
    Some(found)
}

/// The occurs check for a variable: looks for an unbound variable and compares it with the needle.
pub fn typevars_match(
    needle: TypeVariableId,
    level: LetBindingLevel,
    haystack: TypeVariableId,
    bindings: &UnificationBindings,
    fuel: u32,
    cache: &ModuleCache,
) -> (r: Option<OccursResult>)
    ensures
        is_found(
            r,
            occurs_in_variable(
                fuel as nat,
                needle,
                level,
                haystack,
                bindings@.types,
                cache@.type_bindings,
            ),
        ),
    decreases fuel, 1nat,
{
    if haystack.0 >= cache.type_bindings.len() {
        return None;
    }
    match find_binding(haystack, bindings, cache) {
        TypeBinding::Bound(binding) => {
            occurs_helper(needle, level, &binding, bindings, fuel, cache)
        },
        TypeBinding::Unbound(original_level, _) => {
            let mut levels: LevelBindings = Vec::new();
            if level.0 < original_level.0 {
                levels.push((haystack, level));
                assert(levels@ =~= seq![(haystack, level)]);
            }
            Some(OccursResult::new(needle == haystack, levels))
        },
    }
}

/// The occurs check for each of the types, up to the first one in which the variable is found.
pub fn occurs_in_types(
    id: TypeVariableId,
    level: LetBindingLevel,
    types: &[Type],
    bindings: &UnificationBindings,
    fuel: u32,
    cache: &ModuleCache,
) -> (r: Option<OccursResult>)
    ensures
        is_found(
            r,
            occurs_in_seq(
                fuel as nat,
                id,
                level,
                tys(types@),
                bindings@.types,
                cache@.type_bindings,
            ),
        ),
    decreases fuel, 1nat,
{
    let ghost ts = tys(types@);
    let ghost map = bindings@.types;
    let ghost vars = cache@.type_bindings;
    let ghost whole = occurs_in_seq(fuel as nat, id, level, ts, map, vars);
    let mut found = OccursResult::does_not_occur();
    let mut i: usize = 0;
    proof {
        assert(ts.skip(0) =~= ts);
        lemma_search_nothing(found.level_bindings@, whole);
    }
    while i < types.len()
        invariant
            i <= types.len(),
            ts == tys(types@),
            map == bindings@.types,
            vars == cache@.type_bindings,
            whole == occurs_in_seq(fuel as nat, id, level, ts, map, vars),
            !found.occurs,
            whole == search_both(
                Some((false, found.level_bindings@)),
                occurs_in_seq(fuel as nat, id, level, ts.skip(i as int), map, vars),
            ),
        decreases types.len() - i,
    {
        let ghost rest = ts.skip(i as int);
        assert(rest[0] == types@[i as int]@);
        assert(rest.skip(1) =~= ts.skip(i + 1));
        let ghost before = found.level_bindings@;
        proof {
            lemma_search_assoc(
                before,
                occurs_in(fuel as nat, id, level, rest[0], map, vars),
                occurs_in_seq(fuel as nat, id, level, rest.skip(1), map, vars),
            );
        }
        found.extend(occurs_helper(id, level, &types[i], bindings, fuel, cache)?);
        if found.occurs {
            return Some(found);
        }
        i += 1;
    }
    assert(found.level_bindings@ + Seq::empty() =~= found.level_bindings@);
    Some(found)
}

proof fn lemma_search_nothing(
    levels: Seq<(TypeVariableId, LetBindingLevel)>,
    rest: Option<Found>,
)
    requires
        levels.len() == 0,
    ensures
        search_both(Some((false, levels)), rest) == rest,
{
    if let Some((found, more)) = rest {
        assert(levels + more =~= more);
    }
}

proof fn lemma_search_assoc(
    levels: Seq<(TypeVariableId, LetBindingLevel)>,
    a: Option<Found>,
    b: Option<Found>,
)
    ensures
        search_both(Some((false, levels)), search_both(a, b)) == search_both(
            search_both(Some((false, levels)), a),
            b,
        ),
{
    if let Some((found, more)) = a {
        if !found {
            if let Some((found2, rest)) = b {
                assert(levels + (more + rest) =~= (levels + more) + rest);
            }
        }
    }
}

/// The occurs check for the type of each field.
pub fn occurs_in_fields(
    id: TypeVariableId,
    level: LetBindingLevel,
    fields: &Vec<Field>,
    bindings: &UnificationBindings,
    fuel: u32,
    cache: &ModuleCache,
) -> (r: Option<OccursResult>)
    ensures
        is_found(
            r,
            occurs_in_seq(
                fuel as nat,
                id,
                level,
                field_tys(fields@),
                bindings@.types,
                cache@.type_bindings,
            ),
        ),
    decreases fuel, 1nat,
{
    let ghost ts = field_tys(fields@);
    let ghost map = bindings@.types;
    let ghost vars = cache@.type_bindings;
    let ghost whole = occurs_in_seq(fuel as nat, id, level, ts, map, vars);
    let mut found = OccursResult::does_not_occur();
    let mut i: usize = 0;
    proof {
        assert(ts.skip(0) =~= ts);
        lemma_search_nothing(found.level_bindings@, whole);
    }
    while i < fields.len()
        invariant
            i <= fields.len(),
            ts == field_tys(fields@),
            map == bindings@.types,
            vars == cache@.type_bindings,
            whole == occurs_in_seq(fuel as nat, id, level, ts, map, vars),
            !found.occurs,
            whole == search_both(
                Some((false, found.level_bindings@)),
                occurs_in_seq(fuel as nat, id, level, ts.skip(i as int), map, vars),
            ),
        decreases fields.len() - i,
    {
        let ghost rest = ts.skip(i as int);
        assert(rest[0] == fields@[i as int].typ@);
        assert(rest.skip(1) =~= ts.skip(i + 1));
        let ghost before = found.level_bindings@;
        proof {
            lemma_search_assoc(
                before,
                occurs_in(fuel as nat, id, level, rest[0], map, vars),
                occurs_in_seq(fuel as nat, id, level, rest.skip(1), map, vars),
            );
        }
        found.extend(occurs_helper(id, level, &fields[i].typ, bindings, fuel, cache)?);
        if found.occurs {
            return Some(found);
        }
        i += 1;
    }
    assert(found.level_bindings@ + Seq::empty() =~= found.level_bindings@);
    Some(found)
}

/// The occurs check for the arguments of each effect.
pub fn occurs_in_effects(
    id: TypeVariableId,
    level: LetBindingLevel,
    effects: &Vec<Effect>,
    bindings: &UnificationBindings,
    fuel: u32,
    cache: &ModuleCache,
) -> (r: Option<OccursResult>)
    ensures
        is_found(
            r,
            occurs_in_seq(
                fuel as nat,
                id,
                level,
                effect_tys(effects@),
                bindings@.types,
                cache@.type_bindings,
            ),
        ),
    decreases fuel, 1nat,
{
    let ghost ts = effect_tys(effects@);
    let ghost map = bindings@.types;
    let ghost vars = cache@.type_bindings;
    let ghost whole = occurs_in_seq(fuel as nat, id, level, ts, map, vars);
    let mut found = OccursResult::does_not_occur();
    let mut i: usize = 0;
    proof {
        assert(ts.skip(0) =~= ts);
        lemma_search_nothing(found.level_bindings@, whole);
    }
    while i < effects.len()
        invariant
            i <= effects.len(),
            ts == effect_tys(effects@),
            map == bindings@.types,
            vars == cache@.type_bindings,
            whole == occurs_in_seq(fuel as nat, id, level, ts, map, vars),
            !found.occurs,
            whole == search_both(
                Some((false, found.level_bindings@)),
                occurs_in_seq(fuel as nat, id, level, ts.skip(i as int), map, vars),
            ),
        decreases effects.len() - i,
    {
        let ghost rest = ts.skip(i as int);
        assert(rest[0] == effects@[i as int]@);
        assert(rest.skip(1) =~= ts.skip(i + 1));
        let ghost before = found.level_bindings@;
        proof {
            lemma_search_assoc(
                before,
                occurs_in(fuel as nat, id, level, rest[0], map, vars),
                occurs_in_seq(fuel as nat, id, level, rest.skip(1), map, vars),
            );
        }
        if fuel == 0 {
            return None;
        }
        found.extend(occurs_in_types(id, level, &effects[i].args, bindings, fuel - 1, cache)?);
        if found.occurs {
            return Some(found);
        }
        i += 1;
    }
    assert(found.level_bindings@ + Seq::empty() =~= found.level_bindings@);
    Some(found)
}

/// Can the unbound variable `id` be found inside this type? The variables found on the way whose
/// level is higher than `level` get it as a level binding: a variable reachable from one of an
/// outer scope lives as long as that one and must not be generalized before it. This should only
/// be called during unification therefore.
pub fn occurs(
    id: TypeVariableId,
    level: LetBindingLevel,
    typ: &Type,
    bindings: &mut UnificationBindings,
    fuel: u32,
    cache: &ModuleCache,
) -> (r: bool)
    requires
        occurs_in(
            fuel as nat,
            id,
            level,
            typ@,
            old(bindings)@.types,
            cache@.type_bindings,
        ) is Some,
    ensures
        occurs_in(fuel as nat, id, level, typ@, old(bindings)@.types, cache@.type_bindings)
            matches Some((found, levels)) && r == found && final(bindings)@ == (Solution {
            types: old(bindings)@.types,
            levels: old(bindings)@.levels + levels,
        }),
{
    let found = occurs_helper(id, level, typ, bindings, fuel, cache).unwrap();
    let mut levels = found.level_bindings;
    bindings.level_bindings.append(&mut levels);
    found.occurs
}

} // verus!
