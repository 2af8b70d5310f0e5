//! Making fresh copies of types: instantiating polytypes, and the constraints of definitions.

use crate::bindings::{insert_binding, is_empty, types_of, TypeBindings};
use crate::cache::{
    constraints, Cache, Callsite, Constraint, ConstraintSignature, DefinitionInfoId,
    GeneralizedType, ImplScopeId, ModuleCache, Origin, Required, RequiredTrait, Scheme, Signature,
    TraitConstraint, TraitConstraintId, TraitConstraints, VariableId,
};
use crate::resolve::{is_type, MAX_DEPTH};
use crate::subst::{
    bind_types_at, bound_type, bound_types, next_type_variable, next_type_variable_id, replace,
    replace_at, try_bind_typevars,
};
use crate::types::{clone_types, tys, Ty, Type, TypeTag, TypeVariableId};
use crate::typevars::{find_all_typevars_in_traits, vars_in_constraints};
use std::collections::HashMap;
use vstd::prelude::*;

verus! {

broadcast use vstd::std_specs::hash::group_hash_axioms;

/// What is asked of a reference that is taken.
#[derive(Debug, Clone, Copy, PartialEq, Eq, Hash, Structural)]
pub enum Mutability {
    Polymorphic,
    Immutable,
    Mutable,
}

/// The type of a reference to a `t`, with fresh variables for what is not known of it.
pub open spec fn reference_to(mutability: Mutability, t: Ty, c: Cache) -> (Ty, Cache) {
    let level = c.current_level;
    let c1 = c.fresh(level);
    let (m, c2) = match mutability {
        Mutability::Polymorphic => (Ty::Variable(c1.next_id()), c1.fresh(level)),
        Mutability::Immutable => (Ty::Tag(TypeTag::Immutable), c1),
        Mutability::Mutable => (Ty::Tag(TypeTag::Mutable), c1),
    };
    let constructor = Ty::Ref {
        sharedness: Box::new(Ty::Variable(c.next_id())),
        mutability: Box::new(m),
        lifetime: Box::new(Ty::Variable(c2.next_id())),
    };
    (Ty::Application(Box::new(constructor), seq![t]), c2.fresh(level))
}

/// Given `a` returns `ref a`.
pub fn ref_of(mutability: Mutability, typ: Type, cache: &mut ModuleCache) -> (r: Type)
    ensures
        r@ == reference_to(mutability, typ@, old(cache)@).0,
        final(cache)@ == reference_to(mutability, typ@, old(cache)@).1,
{
    let sharedness = next_type_variable(cache);
    let mutability = match mutability {
        Mutability::Polymorphic => next_type_variable(cache),
        Mutability::Immutable => Type::Tag(TypeTag::Immutable),
        Mutability::Mutable => Type::Tag(TypeTag::Mutable),
    };
    let lifetime = next_type_variable(cache);
    let ghost parts = (sharedness@, mutability@, lifetime@);
    let constructor = Type::Ref {
        sharedness: Box::new(sharedness),
        mutability: Box::new(mutability),
        lifetime: Box::new(lifetime),
    };
    assert(constructor@ == Ty::Ref {
        sharedness: Box::new(parts.0),
        mutability: Box::new(parts.1),
        lifetime: Box::new(parts.2),
    });
    let args = vec![typ];
    assert(tys(args@) =~= seq![typ@]);
    Type::TypeApplication(Box::new(constructor), args)
}

/// A renaming of variables, as type bindings.
pub open spec fn renaming(m: Map<usize, TypeVariableId>) -> Map<usize, Ty> {
    Map::new(|k: usize| m.contains_key(k), |k: usize| Ty::Variable(m[k]))
}

/// A renaming of variables, as type bindings.
fn to_bindings(renamed: &HashMap<usize, TypeVariableId>) -> (r: TypeBindings)
    ensures
        types_of(r@) == renaming(renamed@),
{
    let mut r: TypeBindings = HashMap::new();
    let ghost wanted = renaming(renamed@);
    for entry in it: renamed.iter()
        invariant
            wanted == renaming(renamed@),
            forall|i: int|
                #![trigger it.seq()[i]]
                0 <= i < it.seq().len() ==> renamed@.contains_key(*it.seq()[i].0)
                    && renamed@[*it.seq()[i].0] == *it.seq()[i].1,
            forall|k: usize| #[trigger]
                wanted.contains_key(k) ==> (exists|i: int|
                    it.index() <= i < it.seq().len() && *(#[trigger] it.seq()[i]).0 == k)
                    || types_of(r@).contains_key(k),
            forall|k: usize| #[trigger]
                types_of(r@).contains_key(k) ==> wanted.contains_key(k) && types_of(r@)[k]
                    == wanted[k],
    {
        let (key, id) = entry;
        assert(renamed@.contains_key(*key));
        assert(wanted.contains_key(*key));
        let ghost now = types_of(r@);
        insert_binding(&mut r, TypeVariableId(*key), Type::TypeVariable(*id));
        assert(types_of(r@) == now.insert(*key, Ty::Variable(*id)));
        assert forall|k: usize| #[trigger] types_of(r@).contains_key(k) && k != *key implies
            now.contains_key(k) by {}
    }
    assert(types_of(r@) =~= wanted);
    r
}

/// Replaces the variables that have an entry in the table with the variable there, and leaves the
/// others.
pub fn replace_typevars(
    typ: &Type,
    typevars_to_replace: &HashMap<usize, TypeVariableId>,
    cache: &ModuleCache,
) -> (r: Option<Type>)
    ensures
        is_type(
            r,
            bound_type(typ@, renaming(typevars_to_replace@), cache@.type_bindings),
        ),
{
    let bindings = to_bindings(typevars_to_replace);
    try_bind_typevars(typ, &bindings, cache)
}

/// The renaming of the first `n` variables to fresh ones, added to a given renaming.
pub open spec fn fresh_names(
    n: nat,
    vars: Seq<TypeVariableId>,
    m: Map<usize, TypeVariableId>,
    c: Cache,
) -> (Map<usize, TypeVariableId>, Cache)
    decreases n,
{
    if n == 0 {
        (m, c)
    } else {
        let (m1, c1) = fresh_names((n - 1) as nat, vars, m, c);
        (m1.insert(vars[n - 1].0, c1.next_id()), c1.fresh(c.current_level))
    }
}

/// The renaming to fresh variables of those of the first `n` variables that a given renaming
/// lacks, added to it.
pub open spec fn missing_names(
    n: nat,
    vars: Seq<TypeVariableId>,
    m: Map<usize, TypeVariableId>,
    c: Cache,
) -> (Map<usize, TypeVariableId>, Cache)
    decreases n,
{
    if n == 0 {
        (m, c)
    } else {
        let (m1, c1) = missing_names((n - 1) as nat, vars, m, c);
        if m1.contains_key(vars[n - 1].0) {
            (m1, c1)
        } else {
            (m1.insert(vars[n - 1].0, c1.next_id()), c1.fresh(c.current_level))
        }
    }
}

/// The constraint at other arguments.
pub open spec fn with_args(constraint: Constraint, args: Seq<Ty>) -> Constraint {
    Constraint {
        required: Required {
            signature: Signature { args, ..constraint.required.signature },
            ..constraint.required
        },
        ..constraint
    }
}

/// The constraints with the variables in their arguments renamed.
pub open spec fn rename_constraints(
    cs: Seq<Constraint>,
    types: Map<usize, Ty>,
    c: Cache,
) -> Option<Seq<Constraint>> {
    if forall|i: int|
        0 <= i < cs.len() ==> bound_types(
            (#[trigger] cs[i]).required.signature.args,
            types,
            c.type_bindings,
        ) is Some {
        Some(
            Seq::new(
                cs.len(),
                |i: int|
                    with_args(
                        cs[i],
                        bound_types(cs[i].required.signature.args, types, c.type_bindings)->0,
                    ),
            ),
        )
    } else {
        None
    }
}

/// What instantiating comes to.
#[verifier::ext_equal]
pub struct Instance {
    pub typ: Ty,
    pub traits: Seq<Constraint>,
    pub types: Map<usize, Ty>,
    pub cache: Cache,
}

/// The scheme with its variables, and the other polymorphic variables of the constraints, replaced
/// by fresh ones. A monotype is left as it is. `None` where replacing is not defined.
pub open spec fn instance(scheme: Scheme, cs: Seq<Constraint>, c: Cache) -> Option<Instance> {
    match scheme {
        Scheme::Mono(typ) => Some(Instance { typ, traits: cs, types: Map::empty(), cache: c }),
        Scheme::Poly(vars, t) => {
            let (m1, c1) = fresh_names(vars.len(), vars, Map::empty(), c);
            match (
                bound_type(t, renaming(m1), c1.type_bindings),
                vars_in_constraints(cs.len(), cs, c1),
            ) {
                (Some(typ), Some(found)) => {
                    let (m2, c2) = missing_names(found.len(), found, m1, c1);
                    match rename_constraints(cs, renaming(m2), c2) {
                        Some(traits) => Some(
                            Instance { typ, traits, types: renaming(m2), cache: c2 },
                        ),
                        None => None,
                    }
                },
                _ => None,
            }
        },
    }
}

impl GeneralizedType {
    /// `instantiate` for types of any shape: `None` where the result would not be defined.
    pub fn instantiate_at(&self, traits: TraitConstraints, cache: &mut ModuleCache) -> (r: Option<
        (Type, TraitConstraints, TypeBindings),
    >)
        ensures
            match instance(self@, constraints(traits@), old(cache)@) {
                None => r is None,
                Some(i) => r matches Some((typ, more, bindings)) && typ@ == i.typ && constraints(
                    more@,
                ) == i.traits && types_of(bindings@) == i.types && final(cache)@ == i.cache,
            },
    {
        match self {
            GeneralizedType::MonoType(typ) => {
                let none: TypeBindings = HashMap::new();
                assert(types_of(none@) =~= Map::empty());
                Some((typ.clone(), traits, none))
            },
            GeneralizedType::PolyType(typevars, typ) => {
                let ghost c = cache@;
                let mut typevars_to_replace: HashMap<usize, TypeVariableId> = HashMap::new();
                let mut i: usize = 0;
                while i < typevars.len()
                    invariant
                        i <= typevars.len(),
                        c == old(cache)@,
                        cache@.current_level == c.current_level,
                        fresh_names(i as nat, typevars@, Map::empty(), c) == (
                            typevars_to_replace@,
                            cache@,
                        ),
                    decreases typevars.len() - i,
                {
                    typevars_to_replace.insert(typevars[i].0, next_type_variable_id(cache));
                    i += 1;
                }
                let ghost m1 = typevars_to_replace@;
                let ghost c1 = cache@;
                let typ = replace_typevars(typ, &typevars_to_replace, cache)?;
                let found = find_all_typevars_in_traits(&traits, cache)?;
                let mut i: usize = 0;
                while i < found.len()
                    invariant
                        i <= found.len(),
                        cache@.current_level == c1.current_level,
                        missing_names(i as nat, found@, m1, c1) == (
                            typevars_to_replace@,
                            cache@,
                        ),
                    decreases found.len() - i,
                {
                    if !typevars_to_replace.contains_key(&found[i].0) {
                        typevars_to_replace.insert(found[i].0, next_type_variable_id(cache));
                    }
                    i += 1;
                }
                let type_bindings = to_bindings(&typevars_to_replace);
                let renamed = rename_constraints_at(&traits, &type_bindings, cache)?;
                Some((typ, renamed, type_bindings))
            },
        }
    }

    /// Specializes the polytype by copying the type and replacing its variables consistently with
    /// fresh ones, as in `instantiate (forall a b. a -> b -> a) = c -> d -> c`. The given
    /// constraints are instantiated as well: each free polymorphic variable of their arguments is
    /// replaced. Returns the bindings that were used, too.
    pub fn instantiate(&self, traits: TraitConstraints, cache: &mut ModuleCache) -> (r: (
        Type,
        TraitConstraints,
        TypeBindings,
    ))
        requires
            instance(self@, constraints(traits@), old(cache)@) is Some,
        ensures
            instance(self@, constraints(traits@), old(cache)@) == Some(
                (Instance {
                    typ: r.0@,
                    traits: constraints(r.1@),
                    types: types_of(r.2@),
                    cache: final(cache)@,
                }),
            ),
    {
        self.instantiate_at(traits, cache).unwrap()
    }
}

fn rename_constraints_at(
    traits: &TraitConstraints,
    type_bindings: &TypeBindings,
    cache: &ModuleCache,
) -> (r: Option<TraitConstraints>)
    ensures
        match rename_constraints(constraints(traits@), types_of(type_bindings@), cache@) {
            Some(cs) => r is Some && constraints(r->0@) == cs,
            None => r is None,
        },
{
    let ghost cs = constraints(traits@);
    let ghost types = types_of(type_bindings@);
    let ghost vars = cache@.type_bindings;
    let mut r: TraitConstraints = Vec::new();
    let mut i: usize = 0;
    while i < traits.len()
        invariant
            i <= traits.len(),
            r.len() == i,
            cs == constraints(traits@),
            types == types_of(type_bindings@),
            vars == cache@.type_bindings,
            forall|j: int|
                0 <= j < i ==> bound_types(
                    (#[trigger] cs[j]).required.signature.args,
                    types,
                    vars,
                ) is Some,
            forall|j: int|
                0 <= j < i ==> (#[trigger] r@[j])@ == with_args(
                    cs[j],
                    bound_types(cs[j].required.signature.args, types, vars)->0,
                ),
        decreases traits.len() - i,
    {
        let constraint = &traits[i];
        assert(cs[i as int] == constraint@);
        let args = if is_empty(type_bindings) {
            clone_types(&constraint.required.signature.args)
        } else {
            bind_types_at(
                MAX_DEPTH,
                &constraint.required.signature.args,
                type_bindings,
                cache,
            )?
        };
        let signature = ConstraintSignature {
            trait_id: constraint.required.signature.trait_id,
            args,
            id: constraint.required.signature.id,
        };
        let callsite = constraint.required.callsite.clone();
        r.push(
            TraitConstraint {
                required: RequiredTrait { signature, callsite },
                scope: constraint.scope,
            },
        );
        i += 1;
    }
    proof {
        assert(constraints(r@) =~= rename_constraints(cs, types, cache@)->0);
    }
    Some(r)
}

/// Similar to `instantiate`, with a given map from the old variables to the new ones, to which
/// more are added: so that all definitions of a trait impl are mapped to the same variables. It
/// replaces the variables of monotypes too.
pub fn instantiate_impl_with_bindings(
    typ: &GeneralizedType,
    bindings: &mut TypeBindings,
    cache: &mut ModuleCache,
) -> (r: Option<GeneralizedType>)
    ensures
        match replace(
            MAX_DEPTH as nat,
            typ@.body(),
            types_of(old(bindings)@),
            old(cache)@,
        ) {
            None => r is None,
            Some((t, types, c)) => r is Some && r->0@ == Scheme::Mono(t) && types_of(
                final(bindings)@,
            ) == types && final(cache)@ == c,
        },
{
    let typ = replace_at(MAX_DEPTH, typ.remove_forall(), bindings, cache)?;
    Some(GeneralizedType::MonoType(typ))
}

/// The constraint that a required trait gives rise to where its definition is used.
pub open spec fn constraint_of(
    required: Required,
    scope: ImplScopeId,
    callsite: VariableId,
    id: TraitConstraintId,
) -> Constraint {
    Constraint {
        required: Required {
            signature: Signature { id, ..required.signature },
            callsite: Origin::Indirect(callsite, seq![required.signature.id]),
        },
        scope,
    }
}

/// How many constraints a use of the definition gives rise to.
pub open spec fn constraint_count(c: Cache, id: DefinitionInfoId) -> int {
    let info = c.definition_infos[id.0 as int];
    info.required_traits.len() + if info.trait_info is Some {
        1int
    } else {
        0int
    }
}

/// The constraints that a use of the definition gives rise to: one for each trait that it
/// requires, and for a member of a trait one for the trait itself. Each has an id of its own.
pub open spec fn constraints_of_use(
    c: Cache,
    id: DefinitionInfoId,
    scope: ImplScopeId,
    callsite: VariableId,
) -> Seq<Constraint> {
    let info = c.definition_infos[id.0 as int];
    let n = info.required_traits.len();
    let required = Seq::new(
        n,
        |i: int|
            constraint_of(
                info.required_traits[i],
                scope,
                callsite,
                TraitConstraintId((c.next_constraint + i) as usize),
            ),
    );
    match info.trait_info {
        None => required,
        Some((trait_id, args)) => required.push(
            Constraint {
                required: Required {
                    signature: Signature {
                        trait_id,
                        args,
                        id: TraitConstraintId((c.next_constraint + n) as usize),
                    },
                    callsite: Origin::Direct(callsite),
                },
                scope,
            },
        ),
    }
}

impl RequiredTrait {
    /// The constraint that the required trait gives rise to at the given use.
    pub fn as_constraint(
        &self,
        scope: ImplScopeId,
        callsite: VariableId,
        id: TraitConstraintId,
    ) -> (r: TraitConstraint)
        ensures
            r@ == constraint_of(self@, scope, callsite, id),
    {
        let signature = ConstraintSignature {
            trait_id: self.signature.trait_id,
            args: clone_types(&self.signature.args),
            id,
        };
        let ids = vec![self.signature.id];
        assert(ids@ =~= seq![self.signature.id]);
        let callsite = Callsite::Indirect(callsite, ids);
        TraitConstraint { required: RequiredTrait { signature, callsite }, scope }
    }
}

/// The constraints that a use of the definition gives rise to. `None` if the cache has no such
/// definition, or no ids are left for the constraints.
pub fn to_trait_constraints(
    id: DefinitionInfoId,
    scope: ImplScopeId,
    callsite: VariableId,
    cache: &mut ModuleCache,
) -> (r: Option<TraitConstraints>)
    ensures
        r is Some <==> id.0 < old(cache)@.definition_infos.len() && old(cache)@.next_constraint
            + constraint_count(old(cache)@, id) <= usize::MAX,
        r is Some ==> constraints(r->0@) == constraints_of_use(old(cache)@, id, scope, callsite)
            && final(cache)@ == (Cache {
            next_constraint: (old(cache)@.next_constraint + constraint_count(
                old(cache)@,
                id,
            )) as usize,
            ..old(cache)@
        }),
        r is None ==> final(cache)@ == old(cache)@,
{
    if id.0 >= cache.definition_infos.len() {
        return None;
    }
    let ghost c = cache@;
    let first: usize = cache.current_trait_constraint_id;
    let info = &cache.definition_infos[id.0];
    assert(c.definition_infos[id.0 as int] == info@);
    let n: usize = info.required_traits.len();
    if n > usize::MAX - first {
        return None;
    }
    let mut next: usize = first + n;
    if info.trait_info.is_some() && next == usize::MAX {
        return None;
    }
    let mut traits: TraitConstraints = Vec::new();
    let mut i: usize = 0;
    while i < n
        invariant
            i <= n,
            n == info.required_traits.len(),
            first + n <= usize::MAX,
            first == c.next_constraint,
            c.definition_infos[id.0 as int] == info@,
            traits.len() == i,
            forall|j: int|
                0 <= j < i ==> (#[trigger] traits@[j])@ == constraint_of(
                    info.required_traits@[j]@,
                    scope,
                    callsite,
                    TraitConstraintId((c.next_constraint + j) as usize),
                ),
        decreases n - i,
    {
        let constraint_id = TraitConstraintId(first + i);
        traits.push(info.required_traits[i].as_constraint(scope, callsite, constraint_id));
        i += 1;
    }
    // A member of a trait has the constraint of the trait itself, too.
    if let Some((trait_id, args)) = &info.trait_info {
        let signature = ConstraintSignature {
            trait_id: *trait_id,
            args: clone_types(args),
            id: TraitConstraintId(next),
        };
        next = next + 1;
        traits.push(
            TraitConstraint {
                required: RequiredTrait { signature, callsite: Callsite::Direct(callsite) },
                scope,
            },
        );
    }
    assert(constraints(traits@) =~= constraints_of_use(c, id, scope, callsite));
    cache.current_trait_constraint_id = next;
    Some(traits)
}

/// Fresh names are new, and no two variables get the same one.
pub proof fn law_fresh_names(n: nat, vars: Seq<TypeVariableId>, c: Cache)
    requires
        n <= vars.len(),
        c.type_bindings.len() + n <= usize::MAX,
    ensures
        ({
            let (m, c1) = fresh_names(n, vars, Map::empty(), c);
            &&& c1.type_bindings.len() == c.type_bindings.len() + n
            &&& forall|k: usize| #[trigger]
                m.contains_key(k) <==> exists|i: int| 0 <= i < n && (#[trigger] vars[i]).0 == k
            &&& forall|k: usize| #[trigger]
                m.contains_key(k) ==> c.type_bindings.len() <= m[k].0 < c1.type_bindings.len()
            &&& forall|j: usize, k: usize|
                m.contains_key(j) && m.contains_key(k) && #[trigger] m[j] == #[trigger] m[k] ==> j
                    == k
        }),
    decreases n,
{
    if n > 0 {
        law_fresh_names((n - 1) as nat, vars, c);
        let (m0, c0) = fresh_names((n - 1) as nat, vars, Map::empty(), c);
        let (m, c1) = fresh_names(n, vars, Map::empty(), c);
        assert forall|k: usize| #[trigger] m.contains_key(k) implies exists|i: int|
            0 <= i < n && (#[trigger] vars[i]).0 == k by {
            if k == vars[n - 1].0 {
                assert(vars[n - 1].0 == k);
            } else {
                assert(m0.contains_key(k));
                let i = choose|i: int| 0 <= i < n - 1 && (#[trigger] vars[i]).0 == k;
                assert(vars[i].0 == k);
            }
        }
        assert forall|k: usize|
            (exists|i: int| 0 <= i < n && (#[trigger] vars[i]).0 == k) implies
            #[trigger] m.contains_key(k) by {
            let i = choose|i: int| 0 <= i < n && (#[trigger] vars[i]).0 == k;
            if i < n - 1 {
                assert(vars[i].0 == k);
                assert(m0.contains_key(k));
            }
        }
    }
}

} // verus!
