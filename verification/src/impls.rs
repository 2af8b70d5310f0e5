//! The members of traits and effects: what impls and declarations take from them.

use crate::bindings::{is_empty, types_of, Solution, TypeBindings, UnificationBindings};
use crate::cache::{
    required_traits, signatures, Cache, Constraint, ConstraintSignature, Def, DefinitionInfoId,
    DiagnosticKind, GeneralizedType, ImplScopeId, Location, ModuleCache, Report, Required,
    RequiredTrait, Scheme, Signature, TraitConstraint, TraitConstraintId, TraitInfoId,
    TypeErrorKind,
};
use crate::definitions::{is_cache, set_definition_type};
use crate::effect_sets::has_effect;
use crate::instantiate::instantiate_impl_with_bindings;
use crate::patterns::{
    extend_required, foreach_variable, visits, visits_of, Pattern, PatternVisit, Visit,
};
use crate::resolve::MAX_DEPTH;
use crate::solve::{try_unify_all_with_bindings_at, unification_of_all};
use crate::subst::replace;
use crate::types::{effect_tys, tys, Effect, EffectSet, FunctionType, Ty, Type};
use crate::typevars::{generalization, generalize};
use crate::unify::State;
use vstd::prelude::*;

verus! {

/// The first of the definitions, from position `i` on, that has the given name.
pub open spec fn named_from(
    i: nat,
    ids: Seq<DefinitionInfoId>,
    name: Seq<char>,
    c: Cache,
) -> Option<DefinitionInfoId>
    decreases ids.len() - i,
{
    if i >= ids.len() {
        None
    } else if ids[i as int].0 >= c.definition_infos.len() {
        None
    } else if c.definition_infos[ids[i as int].0 as int].name == name {
        Some(ids[i as int])
    } else {
        named_from(i + 1, ids, name, c)
    }
}

/// The definition that the trait has for the given name.
pub open spec fn member_of(name: Seq<char>, trait_id: TraitInfoId, c: Cache) -> Option<
    DefinitionInfoId,
> {
    if trait_id.0 < c.trait_infos.len() {
        named_from(0, c.trait_infos[trait_id.0 as int].definitions, name, c)
    } else {
        None
    }
}

/// The definition that the trait has for the given name.
fn find_member(name: &String, trait_id: TraitInfoId, cache: &ModuleCache) -> (r: Option<
    DefinitionInfoId,
>)
    ensures
        r == member_of(name@, trait_id, cache@),
        r matches Some(id) ==> id.0 < cache.definition_infos.len(),
{
    if trait_id.0 >= cache.trait_infos.len() {
        return None;
    }
    let info = &cache.trait_infos[trait_id.0];
    let ghost c = cache@;
    let ghost ids = c.trait_infos[trait_id.0 as int].definitions;
    assert(ids == info.definitions@);
    let mut i: usize = 0;
    while i < info.definitions.len()
        invariant
            i <= info.definitions.len(),
            c == cache@,
            ids == info.definitions@,
            member_of(name@, trait_id, c) == named_from(i as nat, ids, name@, c),
        decreases info.definitions.len() - i,
    {
        let id = info.definitions[i];
        if id.0 >= cache.definition_infos.len() {
            return None;
        }
        assert(c.definition_infos[id.0 as int] == cache.definition_infos@[id.0 as int]@);
        if cache.definition_infos[id.0].name == *name {
            return Some(id);
        }
        i += 1;
    }
    None
}

/// The type of the named member of a trait: `Some(None)` if the trait was not inferred yet, in
/// which case that comes first. `None` if the trait has no such member.
pub fn lookup_definition_type_in_trait(
    name: &String,
    trait_id: TraitInfoId,
    cache: &ModuleCache,
) -> (r: Option<Option<GeneralizedType>>)
    ensures
        match member_of(name@, trait_id, cache@) {
            None => r is None,
            Some(id) => r is Some && match cache@.definition_infos[id.0 as int].typ {
                Some(scheme) => r->0 is Some && r->0->0@ == scheme,
                None => r->0 is None,
            },
        },
{
    let id = find_member(name, trait_id, cache)?;
    assert(cache@.definition_infos[id.0 as int] == cache.definition_infos@[id.0 as int]@);
    match &cache.definition_infos[id.0].typ {
        Some(typ) => Some(Some(typ.clone())),
        None => Some(None),
    }
}

/// Clones of the required traits.
fn clone_required(traits: &Vec<RequiredTrait>) -> (r: Vec<RequiredTrait>)
    ensures
        required_traits(r@) == required_traits(traits@),
{
    let mut r: Vec<RequiredTrait> = Vec::new();
    extend_required(&mut r, traits);
    assert(required_traits(r@) =~= required_traits(traits@));
    r
}

/// The traits that the named member of a trait requires: `Some(None)` if the trait was not
/// inferred yet, in which case that comes first. `None` if the trait has no such member.
pub fn lookup_definition_traits_in_trait(
    name: &String,
    trait_id: TraitInfoId,
    cache: &ModuleCache,
) -> (r: Option<Option<Vec<RequiredTrait>>>)
    ensures
        match member_of(name@, trait_id, cache@) {
            None => r is None,
            Some(id) => r is Some && match cache@.definition_infos[id.0 as int].typ {
                Some(_) => r->0 is Some && required_traits(r->0->0@)
                    == cache@.definition_infos[id.0 as int].required_traits,
                None => r->0 is None,
            },
        },
{
    let id = find_member(name, trait_id, cache)?;
    assert(cache@.definition_infos[id.0 as int] == cache.definition_infos@[id.0 as int]@);
    if cache.definition_infos[id.0].typ.is_some() {
        Some(Some(clone_required(&cache.definition_infos[id.0].required_traits)))
    } else {
        Some(None)
    }
}

/// What an impl makes of one variable that its pattern declares: its definition gets the type that
/// the member of that name has in the trait, with its variables replaced according to the bindings,
/// to which more are added. `None` if the variable has no definition, the trait has no member of
/// that name, or was not inferred yet.
pub open spec fn visit_bound(
    visit: Visit,
    trait_id: TraitInfoId,
    types: Map<usize, Ty>,
    c: Cache,
) -> Option<(Map<usize, Ty>, Cache)> {
    match visit {
        Visit::Invalid(location) => Some(
            (types, c.report(location, Report::InvalidSyntaxInIrrefutablePattern)),
        ),
        Visit::Variable(name, definition, _) => match member_of(name, trait_id, c) {
            None => None,
            Some(member) => match c.definition_infos[member.0 as int].typ {
                None => None,
                Some(scheme) => match replace(MAX_DEPTH as nat, scheme.body(), types, c) {
                    None => None,
                    Some((t, types1, c1)) => match definition {
                        None => None,
                        Some(id) => if id.0 >= c1.definition_infos.len() {
                            None
                        } else {
                            Some(
                                (
                                    types1,
                                    c1.with_definition(
                                        id,
                                        Def {
                                            typ: Some(Scheme::Mono(t)),
                                            ..c1.definition_infos[id.0 as int]
                                        },
                                    ),
                                ),
                            )
                        },
                    },
                },
            },
        },
    }
}

/// Whether the member of the trait that a variable implements has no type yet, so that the trait
/// has to be inferred first.
pub open spec fn trait_is_missing(visit: Visit, trait_id: TraitInfoId, c: Cache) -> bool {
    match visit {
        Visit::Variable(name, _, _) => match member_of(name, trait_id, c) {
            Some(member) => c.definition_infos[member.0 as int].typ is None,
            None => false,
        },
        Visit::Invalid(_) => false,
    }
}

/// Whether the member of the trait that a variable implements has no type yet.
fn trait_is_needed(visit: &PatternVisit, trait_id: TraitInfoId, cache: &ModuleCache) -> (r: bool)
    ensures
        r == trait_is_missing(visit@, trait_id, cache@),
{
    match visit {
        PatternVisit::Variable { name, .. } => matches!(
            lookup_definition_type_in_trait(name, trait_id, cache),
            Some(None)
        ),
        PatternVisit::Invalid(_) => false,
    }
}

/// How far the variables of a pattern of an impl have got their types from the members of a trait.
#[derive(Debug)]
pub struct ImplBinding {
    pub trait_id: TraitInfoId,
    pub found: Vec<PatternVisit>,
    /// How many of the variables have their types.
    pub next: usize,
}

/// The model of an `ImplBinding`.
#[verifier::ext_equal]
pub struct PatternBinding {
    pub trait_id: TraitInfoId,
    pub found: Seq<Visit>,
    pub next: int,
}

impl View for ImplBinding {
    type V = PatternBinding;

    open spec fn view(&self) -> PatternBinding {
        PatternBinding {
            trait_id: self.trait_id,
            found: visits(self.found@),
            next: self.next as int,
        }
    }
}

/// What comes after a step in which variables get their types from a trait.
#[derive(Debug, Clone, Copy, PartialEq, Eq, Structural)]
pub enum BindingTodo {
    /// The trait has to be inferred before the next step.
    InferTrait,
    Done,
}

/// What a step comes to in which variables get their types from a trait, in order: how far that has
/// come, the bindings, the cache, and what comes after it.
pub open spec fn pattern_binding_step(
    k: PatternBinding,
    types: Map<usize, Ty>,
    c: Cache,
) -> Option<(PatternBinding, Map<usize, Ty>, Cache, BindingTodo)>
    decreases k.found.len() - k.next,
{
    if k.next >= k.found.len() {
        Some((k, types, c, BindingTodo::Done))
    } else if trait_is_missing(k.found[k.next], k.trait_id, c) {
        Some((k, types, c, BindingTodo::InferTrait))
    } else {
        match visit_bound(k.found[k.next], k.trait_id, types, c) {
            None => None,
            Some((types1, c1)) => pattern_binding_step(
                PatternBinding { next: k.next + 1, ..k },
                types1,
                c1,
            ),
        }
    }
}

/// Begins to give the variables that a pattern of an impl declares the types of the members of the
/// trait. This comes before the definition is inferred: the trait's types are then known inside it,
/// and the bindings are shared by all definitions of the impl.
pub fn bind_irrefutable_pattern_in_impl(pattern: &Pattern, trait_id: TraitInfoId) -> (r:
    ImplBinding)
    ensures
        r@ == (PatternBinding { trait_id, found: visits_of(pattern@), next: 0 }),
{
    ImplBinding { trait_id, found: foreach_variable(pattern), next: 0 }
}

impl ImplBinding {
    /// Goes on up to a variable whose member has no type yet, in which case the trait has to be
    /// inferred before the next step, or up to the end.
    pub fn step(&mut self, bindings: &mut TypeBindings, cache: &mut ModuleCache) -> (r: Option<
        BindingTodo,
    >)
        ensures
            match pattern_binding_step(old(self)@, types_of(old(bindings)@), old(cache)@) {
                None => r is None,
                Some((k, types, c, todo)) => r == Some(todo) && final(self)@ == k && types_of(
                    final(bindings)@,
                ) == types && final(cache)@ == c,
            },
    {
        let ghost k0 = self@;
        let ghost types0 = types_of(bindings@);
        let ghost c0 = cache@;
        while self.next < self.found.len()
            invariant
                k0 == old(self)@,
                types0 == types_of(old(bindings)@),
                c0 == old(cache)@,
                pattern_binding_step(k0, types0, c0) == pattern_binding_step(
                    self@,
                    types_of(bindings@),
                    cache@,
                ),
            decreases self.found.len() - self.next,
        {
            assert(self@.found[self@.next] == self.found@[self.next as int]@);
            if trait_is_needed(&self.found[self.next], self.trait_id, cache) {
                return Some(BindingTodo::InferTrait);
            }
            bind_visit_in_impl(&self.found[self.next], self.trait_id, bindings, cache)?;
            self.next = self.next + 1;
        }
        Some(BindingTodo::Done)
    }
}

/// Gives a variable that a pattern of an impl declares the type of the member of the trait.
pub fn bind_visit_in_impl(
    visit: &PatternVisit,
    trait_id: TraitInfoId,
    bindings: &mut TypeBindings,
    cache: &mut ModuleCache,
) -> (r: Option<()>)
    ensures
        match visit_bound(visit@, trait_id, types_of(old(bindings)@), old(cache)@) {
            None => r is None,
            Some((types, c)) => r is Some && types_of(final(bindings)@) == types && final(cache)@
                == c,
        },
{
    match visit {
        PatternVisit::Invalid(location) => {
            cache.push_diagnostic(*location, DiagnosticKind::InvalidSyntaxInIrrefutablePattern);
        },
        PatternVisit::Variable { name, definition, .. } => {
            let trait_type = lookup_definition_type_in_trait(name, trait_id, cache)??;
            let trait_type = instantiate_impl_with_bindings(&trait_type, bindings, cache)?;
            let id = (*definition)?;
            if id.0 >= cache.definition_infos.len() {
                return None;
            }
            set_definition_type(id, trait_type, cache);
        },
    }
    Some(())
}

/// Whether the arguments unify without anything being bound, and the cache after that was tried.
pub open spec fn fits(used: Seq<Ty>, args: Seq<Ty>, c: Cache) -> Option<(bool, Cache)> {
    if used.len() != args.len() {
        Some((false, c))
    } else {
        match unification_of_all(
            used,
            args,
            State { solution: Solution::empty(), cache: c },
        ) {
            None => None,
            Some(step) => Some(
                (
                    step.ok && step.state.solution.types == Map::<usize, Ty>::empty(),
                    step.state.cache,
                ),
            ),
        }
    }
}

/// The first of the given traits that is the one used, at arguments that fit, and the cache after
/// those up to it were tried.
pub open spec fn matching(used: Signature, given: Seq<Signature>, c: Cache) -> Option<
    (Option<TraitConstraintId>, Cache),
>
    decreases given.len(),
{
    if given.len() == 0 {
        Some((None, c))
    } else if given[0].trait_id != used.trait_id {
        matching(used, given.skip(1), c)
    } else {
        match fits(used.args, given[0].args, c) {
            None => None,
            Some((true, c1)) => Some((Some(given[0].id), c1)),
            Some((false, c1)) => matching(used, given.skip(1), c1),
        }
    }
}

/// The signatures of required traits.
pub open spec fn required_signatures(v: Seq<Required>) -> Seq<Signature> {
    Seq::new(v.len(), |i: int| v[i].signature)
}

fn args_fit(used: &Vec<Type>, args: &Vec<Type>, cache: &mut ModuleCache) -> (r: Option<bool>)
    ensures
        match fits(tys(used@), tys(args@), old(cache)@) {
            None => r is None,
            Some((b, c)) => r == Some(b) && final(cache)@ == c,
        },
{
    let result = try_unify_all_with_bindings_at(
        used,
        args,
        UnificationBindings::empty(),
        Location::builtin(),
        cache,
        TypeErrorKind::NeverShown,
    )?;
    match result {
        Ok(bindings) => Some(is_empty(&bindings.bindings)),
        Err(_) => Some(false),
    }
}

/// The id of the first useable or given trait that the used one matches: the same trait, at
/// arguments that unify without anything being bound.
pub fn find_matching_trait(
    used: &RequiredTrait,
    useable_traits: &[RequiredTrait],
    given: &[ConstraintSignature],
    cache: &mut ModuleCache,
) -> (r: Option<Option<TraitConstraintId>>)
    ensures
        match matching(
            used@.signature,
            required_signatures(required_traits(useable_traits@)) + signatures(given@),
            old(cache)@,
        ) {
            None => r is None,
            Some((id, c)) => r == Some(id) && final(cache)@ == c,
        },
{
    let ghost u = used@.signature;
    let ghost first = required_signatures(required_traits(useable_traits@));
    let ghost all = first + signatures(given@);
    let ghost c = cache@;
    let mut i: usize = 0;
    assert(all.skip(0) =~= all);
    while i < useable_traits.len()
        invariant
            i <= useable_traits.len(),
            u == used@.signature,
            first == required_signatures(required_traits(useable_traits@)),
            all == first + signatures(given@),
            c == old(cache)@,
            matching(u, all, c) == matching(u, all.skip(i as int), cache@),
        decreases useable_traits.len() - i,
    {
        let useable = &useable_traits[i];
        proof {
            assert(all.skip(i as int)[0] == useable@.signature);
            assert(all.skip(i as int).skip(1) =~= all.skip(i + 1));
        }
        if useable.signature.trait_id == used.signature.trait_id {
            if args_fit(&used.signature.args, &useable.signature.args, cache)? {
                return Some(Some(useable.signature.id));
            }
        }
        i += 1;
    }
    let mut j: usize = 0;
    while j < given.len()
        invariant
            j <= given.len(),
            u == used@.signature,
            first == required_signatures(required_traits(useable_traits@)),
            all == first + signatures(given@),
            c == old(cache)@,
            matching(u, all, c) == matching(u, all.skip(first.len() + j), cache@),
        decreases given.len() - j,
    {
        let useable = &given[j];
        proof {
            assert(all.skip(first.len() + j)[0] == useable@);
            assert(all.skip(first.len() + j).skip(1) =~= all.skip(first.len() + j + 1));
        }
        if useable.trait_id == used.signature.trait_id {
            if args_fit(&used.signature.args, &useable.args, cache)? {
                return Some(Some(useable.id));
            }
        }
        j += 1;
    }
    assert(all.skip(first.len() + j) =~= Seq::empty());
    Some(None)
}

/// The check that a member of an impl uses no traits but those it may use. It goes through the
/// used traits one after the other; each that is not given has to be resolved before the next one
/// is looked at.
#[derive(Debug)]
pub struct PropagationCheck {
    pub definition: DefinitionInfoId,
    pub scope: Option<ImplScopeId>,
    pub useable: Vec<RequiredTrait>,
    pub used: Vec<RequiredTrait>,
    /// How many of the used traits were looked at.
    pub next: usize,
    /// Those of them that are given.
    pub kept: Vec<RequiredTrait>,
}

/// The model of a `PropagationCheck`.
#[verifier::ext_equal]
pub struct Check {
    pub definition: DefinitionInfoId,
    pub scope: Option<ImplScopeId>,
    pub useable: Seq<Required>,
    pub used: Seq<Required>,
    pub next: int,
    pub kept: Seq<Required>,
}

impl View for PropagationCheck {
    type V = Check;

    open spec fn view(&self) -> Check {
        Check {
            definition: self.definition,
            scope: self.scope,
            useable: required_traits(self.useable@),
            used: required_traits(self.used@),
            next: self.next as int,
            kept: required_traits(self.kept@),
        }
    }
}

/// What a step of the check comes to: the check, the cache, and the constraint that has to be
/// resolved before the next step, if there is one. Where there is none the check is done, and the
/// definition requires those of the used traits that are given, under the ids they have there.
pub open spec fn check_step(k: Check, given: Seq<Signature>, c: Cache) -> Option<
    (Check, Cache, Option<Constraint>),
>
    decreases k.used.len() - k.next,
{
    if k.next >= k.used.len() {
        if k.definition.0 < c.definition_infos.len() {
            Some(
                (
                    k,
                    c.with_definition(
                        k.definition,
                        Def {
                            required_traits: k.kept,
                            ..c.definition_infos[k.definition.0 as int]
                        },
                    ),
                    None,
                ),
            )
        } else {
            None
        }
    } else {
        let used = k.used[k.next];
        match matching(used.signature, required_signatures(k.useable) + given, c) {
            None => None,
            Some((Some(id), c1)) => check_step(
                Check {
                    next: k.next + 1,
                    kept: k.kept.push(
                        Required { signature: Signature { id, ..used.signature }, ..used },
                    ),
                    ..k
                },
                given,
                c1,
            ),
            Some((None, c1)) => match k.scope {
                None => None,
                Some(scope) => Some(
                    (
                        Check { next: k.next + 1, ..k },
                        c1,
                        Some(Constraint { required: used, scope }),
                    ),
                ),
            },
        }
    }
}

/// The check of what the definition of a variable of an impl uses, before its first step. `None` if
/// the variable has no definition, the trait has no member of that name, or was not inferred yet.
pub open spec fn check_begun(
    name: Seq<char>,
    definition: Option<DefinitionInfoId>,
    scope: Option<ImplScopeId>,
    trait_id: TraitInfoId,
    c: Cache,
) -> Option<Check> {
    match (member_of(name, trait_id, c), definition) {
        (Some(member), Some(id)) => if c.definition_infos[member.0 as int].typ is Some && id.0
            < c.definition_infos.len() {
            Some(
                Check {
                    definition: id,
                    scope,
                    useable: c.definition_infos[member.0 as int].required_traits,
                    used: c.definition_infos[id.0 as int].required_traits,
                    next: 0,
                    kept: Seq::empty(),
                },
            )
        } else {
            None
        },
        _ => None,
    }
}

/// Begins to check the traits that the definition of a variable of an impl uses.
pub fn begin_propagation_check(
    name: &String,
    definition: Option<DefinitionInfoId>,
    scope: Option<ImplScopeId>,
    trait_id: TraitInfoId,
    cache: &ModuleCache,
) -> (r: Option<PropagationCheck>)
    ensures
        match check_begun(name@, definition, scope, trait_id, cache@) {
            None => r is None,
            Some(check) => r is Some && r->0@ == check,
        },
{
    let useable = lookup_definition_traits_in_trait(name, trait_id, cache)??;
    let id = definition?;
    if id.0 >= cache.definition_infos.len() {
        return None;
    }
    assert(cache@.definition_infos[id.0 as int] == cache.definition_infos@[id.0 as int]@);
    let used = clone_required(&cache.definition_infos[id.0].required_traits);
    let kept: Vec<RequiredTrait> = Vec::new();
    assert(required_traits(kept@) =~= Seq::empty());
    Some(PropagationCheck { definition: id, scope, useable, used, next: 0, kept })
}

impl PropagationCheck {
    /// Looks at the next used traits, up to one that is not given: that one has to be resolved
    /// before the next step. `Some(None)` when the check is done.
    pub fn step(&mut self, given: &[ConstraintSignature], cache: &mut ModuleCache) -> (r: Option<
        Option<TraitConstraint>,
    >)
        ensures
            match check_step(old(self)@, signatures(given@), old(cache)@) {
                None => r is None,
                Some((k, c, todo)) => r is Some && final(self)@ == k && final(cache)@ == c
                    && match todo {
                    Some(constraint) => r->0 is Some && r->0->0@ == constraint,
                    None => r->0 is None,
                },
            },
    {
        let ghost sigs = signatures(given@);
        let ghost k0 = self@;
        let ghost c0 = cache@;
        while self.next < self.used.len()
            invariant
                sigs == signatures(given@),
                k0 == old(self)@,
                c0 == old(cache)@,
                check_step(k0, sigs, c0) == check_step(self@, sigs, cache@),
            decreases self.used.len() - self.next,
        {
            let ghost before = self@;
            let mut used = self.used[self.next].clone();
            assert(before.used[before.next] == used@);
            match find_matching_trait(&used, &self.useable, given, cache)? {
                Some(id) => {
                    let ghost u = used@;
                    used.signature.id = id;
                    let ghost changed = used@;
                    assert(changed == (Required {
                        signature: Signature { id, ..u.signature },
                        ..u
                    }));
                    self.kept.push(used);
                    self.next = self.next + 1;
                    assert(required_traits(self.kept@) =~= before.kept.push(changed));
                },
                None => {
                    let scope = self.scope?;
                    self.next = self.next + 1;
                    return Some(Some(TraitConstraint { required: used, scope }));
                },
            }
        }
        let id = self.definition;
        if id.0 >= cache.definition_infos.len() {
            return None;
        }
        let ghost c = cache@;
        assert(c.definition_infos[id.0 as int] == cache.definition_infos@[id.0 as int]@);
        cache.definition_infos[id.0].required_traits = clone_required(&self.kept);
        proof {
            let def = Def {
                required_traits: self@.kept,
                ..c.definition_infos[id.0 as int]
            };
            assert(cache@.definition_infos =~= c.with_definition(id, def).definition_infos);
        }
        Some(None)
    }
}

/// The check that the definitions of all variables in a pattern of an impl use no traits but those
/// they may use: those that the member of that name requires in the trait, and those given for the
/// whole impl.
#[derive(Debug)]
pub struct ImplCheck {
    pub trait_id: TraitInfoId,
    pub found: Vec<PatternVisit>,
    /// How many of the variables were begun with.
    pub next: usize,
    pub current: Option<PropagationCheck>,
}

/// The model of an `ImplCheck`.
#[verifier::ext_equal]
pub struct PatternCheck {
    pub trait_id: TraitInfoId,
    pub found: Seq<Visit>,
    pub next: int,
    pub current: Option<Check>,
}

impl View for ImplCheck {
    type V = PatternCheck;

    open spec fn view(&self) -> PatternCheck {
        PatternCheck {
            trait_id: self.trait_id,
            found: visits(self.found@),
            next: self.next as int,
            current: match self.current {
                Some(check) => Some(check@),
                None => None,
            },
        }
    }
}

/// What comes after a step of the check.
#[derive(Debug)]
pub enum CheckTodo {
    /// The trait has to be inferred before the next step.
    InferTrait,
    /// The constraint has to be resolved before the next step.
    Resolve(TraitConstraint),
    Done,
}

/// The model of a `CheckTodo`.
#[verifier::ext_equal]
pub enum AfterCheck {
    InferTrait,
    Resolve(Constraint),
    Done,
}

impl View for CheckTodo {
    type V = AfterCheck;

    open spec fn view(&self) -> AfterCheck {
        match self {
            CheckTodo::InferTrait => AfterCheck::InferTrait,
            CheckTodo::Resolve(constraint) => AfterCheck::Resolve(constraint@),
            CheckTodo::Done => AfterCheck::Done,
        }
    }
}

/// What a step of the check comes to: the check, the cache, and what comes after it.
pub open spec fn pattern_check_step(k: PatternCheck, given: Seq<Signature>, c: Cache) -> Option<
    (PatternCheck, Cache, AfterCheck),
>
    decreases
            k.found.len() - k.next,
            if k.current is Some {
                1int
            } else {
                0int
            },
{
    match k.current {
        Some(check) => match check_step(check, given, c) {
            None => None,
            Some((check1, c1, Some(constraint))) => Some(
                (
                    PatternCheck { current: Some(check1), ..k },
                    c1,
                    AfterCheck::Resolve(constraint),
                ),
            ),
            Some((_, c1, None)) => pattern_check_step(
                PatternCheck { current: None, ..k },
                given,
                c1,
            ),
        },
        None => if k.next >= k.found.len() {
            Some((k, c, AfterCheck::Done))
        } else if trait_is_missing(k.found[k.next], k.trait_id, c) {
            Some((k, c, AfterCheck::InferTrait))
        } else {
            match k.found[k.next] {
                Visit::Invalid(location) => pattern_check_step(
                    PatternCheck { next: k.next + 1, ..k },
                    given,
                    c.report(location, Report::InvalidSyntaxInIrrefutablePattern),
                ),
                Visit::Variable(name, definition, scope) => match check_begun(
                    name,
                    definition,
                    scope,
                    k.trait_id,
                    c,
                ) {
                    None => None,
                    Some(check) => pattern_check_step(
                        PatternCheck { next: k.next + 1, current: Some(check), ..k },
                        given,
                        c,
                    ),
                },
            }
        },
    }
}

/// Begins to check the traits that the definitions in a pattern of an impl use.
pub fn check_impl_propagated_traits(pattern: &Pattern, trait_id: TraitInfoId) -> (r: ImplCheck)
    ensures
        r@ == (PatternCheck {
            trait_id,
            found: visits_of(pattern@),
            next: 0,
            current: None,
        }),
{
    ImplCheck { trait_id, found: foreach_variable(pattern), next: 0, current: None }
}

impl ImplCheck {
    /// Goes on up to a used trait that is not given, which has to be resolved before the next step,
    /// or to a member that has no type yet, in which case its trait has to be inferred.
    pub fn step(&mut self, given: &[ConstraintSignature], cache: &mut ModuleCache) -> (r: Option<
        CheckTodo,
    >)
        ensures
            match pattern_check_step(old(self)@, signatures(given@), old(cache)@) {
                None => r is None,
                Some((k, c, todo)) => r is Some && final(self)@ == k && final(cache)@ == c
                    && r->0@ == todo,
            },
    {
        let ghost sigs = signatures(given@);
        let ghost k0 = self@;
        let ghost c0 = cache@;
        loop
            invariant
                sigs == signatures(given@),
                k0 == old(self)@,
                c0 == old(cache)@,
                pattern_check_step(k0, sigs, c0) == pattern_check_step(self@, sigs, cache@),
            decreases
                    self@.found.len() - self@.next,
                    if self@.current is Some {
                        1int
                    } else {
                        0int
                    },
        {
            let mut current: Option<PropagationCheck> = None;
            std::mem::swap(&mut current, &mut self.current);
            match current {
                Some(check) => {
                    let mut check = check;
                    match check.step(given, cache)? {
                        Some(constraint) => {
                            self.current = Some(check);
                            return Some(CheckTodo::Resolve(constraint));
                        },
                        None => {},
                    }
                },
                None => {
                    if self.next >= self.found.len() {
                        return Some(CheckTodo::Done);
                    }
                    assert(self@.found[self@.next] == self.found@[self.next as int]@);
                    if trait_is_needed(&self.found[self.next], self.trait_id, cache) {
                        return Some(CheckTodo::InferTrait);
                    }
                    match &self.found[self.next] {
                        PatternVisit::Invalid(location) => {
                            cache.push_diagnostic(
                                *location,
                                DiagnosticKind::InvalidSyntaxInIrrefutablePattern,
                            );
                        },
                        PatternVisit::Variable { name, definition, impl_scope } => {
                            self.current = Some(
                                begin_propagation_check(
                                    name,
                                    *definition,
                                    *impl_scope,
                                    self.trait_id,
                                    cache,
                                )?,
                            );
                        },
                    }
                    self.next = self.next + 1;
                },
            }
        }
    }
}

/// The function type with the effect added to those it has.
pub open spec fn with_effect(t: Ty, effect: Ty) -> Option<Ty> {
    match t {
        Ty::Function { parameters, return_type, environment, effects, has_varargs } => {
            match *effects {
                Ty::Effects(list, _) => Some(
                    Ty::Function {
                        parameters,
                        return_type,
                        environment,
                        effects: Box::new(
                            Ty::Effects(
                                if list.contains(effect) {
                                    list
                                } else {
                                    list.push(effect)
                                },
                                None,
                            ),
                        ),
                        has_varargs,
                    },
                ),
                _ => None,
            }
        },
        _ => None,
    }
}

/// What adding an effect to the type of a definition, and generalizing that, makes of the cache.
/// `None` unless the definition has a monotype that is a function with a row of effects.
pub open spec fn effect_injected(id: DefinitionInfoId, effect: Ty, c: Cache) -> Option<Cache> {
    if id.0 >= c.definition_infos.len() {
        None
    } else {
        match c.definition_infos[id.0 as int].typ {
            Some(Scheme::Mono(t)) => match with_effect(t, effect) {
                None => None,
                Some(u) => match generalization(u, c) {
                    None => None,
                    Some(scheme) => Some(
                        c.with_definition(
                            id,
                            Def { typ: Some(scheme), ..c.definition_infos[id.0 as int] },
                        ),
                    ),
                },
            },
            _ => None,
        }
    }
}

/// Adds the effect to the type of a definition, unless it is there already, and generalizes the
/// type. The effects of the declaration are then all it has.
pub fn inject_effect(id: DefinitionInfoId, effect: Effect, cache: &mut ModuleCache) -> (r: Option<
    (),
>)
    ensures
        is_cache(r, final(cache)@, effect_injected(id, effect@, old(cache)@)),
{
    if id.0 >= cache.definition_infos.len() {
        return None;
    }
    assert(cache@.definition_infos[id.0 as int] == cache.definition_infos@[id.0 as int]@);
    let typ = match &cache.definition_infos[id.0].typ {
        Some(GeneralizedType::MonoType(typ)) => typ.clone(),
        _ => {
            return None;
        },
    };
    let ghost before = typ@;
    let function = match typ {
        Type::Function(function) => function,
        _ => {
            return None;
        },
    };
    let effects_type = *function.effects;
    assert(*before->effects == effects_type@);
    let set = match effects_type {
        Type::Effects(set) => set,
        _ => {
            return None;
        },
    };
    let mut current = set.effects;
    let ghost list = effect_tys(current@);
    let ghost e = effect@;
    if !has_effect(&current, &effect) {
        current.push(effect);
        assert(effect_tys(current@) =~= list.push(e));
    }
    let effects = Type::Effects(EffectSet::only(current));
    assert(effects@ == Ty::Effects(effect_tys(current@), None));
    let typ = Type::Function(
        FunctionType {
            parameters: function.parameters,
            return_type: function.return_type,
            environment: function.environment,
            effects: Box::new(effects),
            has_varargs: function.has_varargs,
        },
    );
    assert(Some(typ@) == with_effect(before, e));
    let generalized = generalize(&typ, cache)?;
    set_definition_type(id, generalized, cache);
    Some(())
}

} // verus!
