//! Impls of traits, and whole programs.

use crate::bindings::{insert_binding, types_of, TypeBindings};
use crate::cache::{
    signatures, Cache, ConstraintSignature, DiagnosticKind, ImplInfoId, Location, ModuleCache,
    Report, TraitConstraints, TraitInfoId, INITIAL_LEVEL,
};
use crate::definitions::is_cache;
use crate::patterns::opt_ty;
use crate::results::TypeResult;
use crate::rules::least;
use crate::tree::{
    infer, inferred, is_inferred, trees, Inferable, Locatable, Node, Outcome, Tree, Typed,
};
use crate::types::{tys, LetBindingLevel, Ty, Type, TypeVariableId};
use crate::values::Definition;
use std::collections::HashMap;
use vstd::prelude::*;

verus! {

/// The impl of a trait.
#[derive(Debug)]
pub struct TraitImpl<A> {
    pub trait_info: Option<TraitInfoId>,
    pub impl_id: Option<ImplInfoId>,
    pub trait_arg_types: Vec<Type>,
    pub definitions: Vec<Definition<A>>,
    pub location: Location,
    pub typ: Option<Type>,
}

impl<A: Node> Node for TraitImpl<A> {
    open spec fn tree(&self) -> Tree {
        Tree::TraitImpl {
            trait_info: self.trait_info,
            impl_id: self.impl_id,
            trait_arg_types: tys(self.trait_arg_types@),
            definitions: trees(self.definitions@),
            location: self.location,
            typ: opt_ty(self.typ),
        }
    }
}

impl<A: Node> Locatable for TraitImpl<A> {
    fn locate(&self) -> (r: Location) {
        self.location
    }
}

impl<A: Node> Typed for TraitImpl<A> {
    fn get_type(&self) -> (r: Option<&Type>) {
        self.typ.as_ref()
    }

    fn set_type(&mut self, typ: Type) {
        self.typ = Some(typ);
    }
}

/// The first `n` variables bound to the types in their places. The last of several types for one
/// variable counts.
pub open spec fn zipped(n: nat, vars: Seq<TypeVariableId>, types: Seq<Ty>) -> Map<usize, Ty>
    decreases n,
{
    if n == 0 {
        Map::empty()
    } else {
        zipped((n - 1) as nat, vars, types).insert(vars[n - 1].0, types[n - 1])
    }
}

/// The variables of a trait bound to the arguments of an impl.
pub open spec fn impl_bindings(trait_info: Option<TraitInfoId>, types: Seq<Ty>, c: Cache) -> Option<
    Map<usize, Ty>,
> {
    match trait_info {
        None => None,
        Some(id) => if id.0 >= c.trait_infos.len() {
            None
        } else {
            let info = c.trait_infos[id.0 as int];
            let vars = info.typeargs + info.fundeps;
            Some(zipped(least(vars.len(), types.len()), vars, types))
        },
    }
}

impl<A: Node> TraitImpl<A> {
    /// Binds the variables of the trait to the arguments of the impl. All definitions of the impl
    /// share these bindings: the types of the members refer to the same variables.
    pub fn bindings(&self, cache: &ModuleCache) -> (r: Option<TypeBindings>)
        ensures
            match impl_bindings(self.trait_info, tys(self.trait_arg_types@), cache@) {
                None => r is None,
                Some(types) => r is Some && types_of(r->0@) == types,
            },
    {
        let id = self.trait_info?;
        if id.0 >= cache.trait_infos.len() {
            return None;
        }
        let info = &cache.trait_infos[id.0];
        let ghost decl = cache@.trait_infos[id.0 as int];
        assert(decl == info@);
        let ghost vars = decl.typeargs + decl.fundeps;
        let ghost types = tys(self.trait_arg_types@);
        let mut r: TypeBindings = HashMap::new();
        assert(types_of(r@) =~= Map::empty());
        let mut i: usize = 0;
        while i < info.typeargs.len() && i < self.trait_arg_types.len()
            invariant
                i <= info.typeargs.len(),
                i <= self.trait_arg_types.len(),
                vars == info.typeargs@ + info.fundeps@,
                types == tys(self.trait_arg_types@),
                types_of(r@) == zipped(i as nat, vars, types),
            decreases info.typeargs.len() - i,
        {
            assert(vars[i as int] == info.typeargs@[i as int]);
            assert(types[i as int] == self.trait_arg_types@[i as int]@);
            insert_binding(&mut r, info.typeargs[i], self.trait_arg_types[i].clone());
            i += 1;
        }
        let mut j: usize = 0;
        while i < self.trait_arg_types.len() && j < info.fundeps.len()
            invariant
                i <= self.trait_arg_types.len(),
                j <= info.fundeps.len(),
                j > 0 ==> i == info.typeargs.len() + j,
                i < self.trait_arg_types.len() ==> i == info.typeargs.len() + j,
                i <= info.typeargs.len() + j,
                vars == info.typeargs@ + info.fundeps@,
                types == tys(self.trait_arg_types@),
                types_of(r@) == zipped(i as nat, vars, types),
            decreases info.fundeps.len() - j,
        {
            assert(vars[i as int] == info.fundeps@[j as int]);
            assert(types[i as int] == self.trait_arg_types@[i as int]@);
            insert_binding(&mut r, info.fundeps[j], self.trait_arg_types[i].clone());
            i += 1;
            j += 1;
        }
        assert(i == least(vars.len(), types.len()));
        Some(r)
    }

    /// The constraints that are given for the whole impl.
    pub fn given(&self, cache: &ModuleCache) -> (r: Option<Vec<ConstraintSignature>>)
        ensures
            match self.impl_id {
                Some(id) => if id.0 < cache@.given.len() {
                    r is Some && signatures(r->0@) == cache@.given[id.0 as int]
                } else {
                    r is None
                },
                None => r is None,
            },
    {
        let id = self.impl_id?;
        if id.0 >= cache.impl_infos.len() {
            return None;
        }
        let given = &cache.impl_infos[id.0].given;
        assert(cache@.given[id.0 as int] == signatures(given@));
        let mut r: Vec<ConstraintSignature> = Vec::new();
        let mut i: usize = 0;
        while i < given.len()
            invariant
                i <= given.len(),
                r.len() == i,
                forall|j: int| 0 <= j < i ==> (#[trigger] r@[j])@ == given@[j]@,
            decreases given.len() - i,
        {
            r.push(given[i].clone());
            i += 1;
        }
        assert(signatures(r@) =~= signatures(given@));
        Some(r)
    }
}

/// Infers a whole program, from its main expression on: at the level of top-level definitions, and
/// below any level afterwards, so that every variable is polymorphic there. The constraints of the
/// result are then to be resolved, and the program finished.
pub fn infer_ast<T: Inferable + Typed>(ast: &mut T, cache: &mut ModuleCache) -> (r: Option<
    TypeResult,
>)
    ensures
        is_inferred(
            r,
            final(ast).tree(),
            final(cache)@,
            program_inferred::<T>(old(ast).tree(), old(cache)@),
        ),
{
    cache.current_level = LetBindingLevel(INITIAL_LEVEL);
    let result = infer(ast, cache)?;
    cache.current_level = LetBindingLevel(INITIAL_LEVEL - 1);
    Some(result)
}

/// The outcome for a whole program, before its constraints are resolved.
pub open spec fn program_inferred<T: Inferable>(t: Tree, c: Cache) -> Option<Outcome> {
    match inferred::<T>(t, c.at_level(LetBindingLevel(INITIAL_LEVEL))) {
        None => None,
        Some(o) => Some(
            Outcome {
                cache: o.cache.at_level(LetBindingLevel((INITIAL_LEVEL - 1) as usize)),
                ..o
            },
        ),
    }
}

/// What finishing a program makes of the cache: effects that nothing handles are reported.
pub open spec fn program_finished(
    effects: (Seq<Ty>, Option<TypeVariableId>),
    location: Location,
    c: Cache,
) -> Cache {
    if effects.0.len() == 0 {
        c
    } else {
        c.report(location, Report::UnhandledEffectsInMain(Ty::Effects(effects.0, effects.1)))
    }
}

/// Finishes a program whose constraints were resolved. None of them may be left: `None` if there
/// are any.
pub fn finish_program(
    result: &TypeResult,
    exposed_traits: &TraitConstraints,
    location: Location,
    cache: &mut ModuleCache,
) -> (r: Option<()>)
    ensures
        is_cache(
            r,
            final(cache)@,
            if exposed_traits.len() == 0 {
                Some(program_finished(result@.effects, location, old(cache)@))
            } else {
                None
            },
        ),
{
    if exposed_traits.len() > 0 {
        return None;
    }
    assert(result@.effects.0.len() == result.effects.effects.len());
    if result.effects.effects.len() > 0 {
        cache.push_diagnostic(
            location,
            DiagnosticKind::UnhandledEffectsInMain(result.effects.clone()),
        );
    }
    Some(())
}

} // verus!
