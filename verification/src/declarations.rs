//! Declarations of traits, effects and outside functions: each gives the variables in it the
//! types that are declared for them.

use crate::cache::{
    required_traits, Cache, DefinitionInfoId, DiagnosticKind, Location, ModuleCache, RequiredTrait,
};
use crate::definitions::is_cache;
use crate::expressions::plain_outcome;
use crate::impls::{effect_injected, inject_effect};
use crate::patterns::{
    bind_irrefutable_pattern, bound_pattern, for_each, for_each_variable, foreach_variable,
    lemma_for_each_none, opt_ty, visits, visits_of, Action, Pattern, PatternVisit,
};
use crate::results::{unit_ty, TypeResult};
use crate::rules::Place;
use crate::tree::{Declared, Expression, Inferable, Locatable, Node, Outcome, Tree, Typed};
use crate::types::{tys, Effect, EffectInfoId, LetBindingLevel, Ty, Type, TypeVariableId};
use vstd::prelude::*;

verus! {

/// A pattern and the type declared for it.
#[derive(Debug)]
pub struct Declaration {
    pub lhs: Pattern,
    pub typ: Option<Type>,
}

impl View for Declaration {
    type V = Declared;

    open spec fn view(&self) -> Declared {
        Declared { lhs: self.lhs@, typ: opt_ty(self.typ) }
    }
}

/// The models of declarations.
pub open spec fn declarations(v: Seq<Declaration>) -> Seq<Declared> {
    Seq::new(v.len(), |i: int| v[i]@)
}

impl Cache {
    /// The cache at another level.
    pub open spec fn at_level(self, level: LetBindingLevel) -> Cache {
        Cache { current_level: level, ..self }
    }
}

/// What binding a declaration to its type makes of it and of the cache. An effect is added to the
/// type of each variable in it, if there is one to add.
pub open spec fn bound_declaration(
    d: Declared,
    generalize: bool,
    effect: Option<Ty>,
    c: Cache,
) -> Option<(Declared, Cache)> {
    match d.typ {
        None => None,
        Some(typ) => match bound_pattern(d.lhs, typ, Seq::empty(), generalize, c) {
            None => None,
            Some((lhs, c1)) => {
                let bound = Declared { lhs, typ: d.typ };
                match effect {
                    None => Some((bound, c1)),
                    Some(effect) => match for_each_variable(lhs, c1, injecting(effect)) {
                        None => None,
                        Some(c2) => Some((bound, c2)),
                    },
                }
            },
        },
    }
}

/// Adding the effect to the type of a variable.
pub open spec fn injecting(effect: Ty) -> Action {
    |name, definition: Option<DefinitionInfoId>, scope, c: Cache|
        match definition {
            Some(id) => effect_injected(id, effect, c),
            None => None,
        }
}

/// The first `n` declarations bound in turn.
pub open spec fn bound_declarations(
    n: nat,
    ds: Seq<Declared>,
    generalize: bool,
    effect: Option<Ty>,
    c: Cache,
) -> Option<(Seq<Declared>, Cache)>
    decreases n,
{
    if n == 0 {
        Some((Seq::empty(), c))
    } else {
        match bound_declarations((n - 1) as nat, ds, generalize, effect, c) {
            None => None,
            Some((front, c1)) => match bound_declaration(ds[n - 1], generalize, effect, c1) {
                None => None,
                Some((last, c2)) => Some((front.push(last), c2)),
            },
        }
    }
}

proof fn lemma_bound_declarations_none(
    n: nat,
    m: nat,
    ds: Seq<Declared>,
    generalize: bool,
    effect: Option<Ty>,
    c: Cache,
)
    requires
        n <= m,
        bound_declarations(n, ds, generalize, effect, c) is None,
    ensures
        bound_declarations(m, ds, generalize, effect, c) is None,
    decreases m,
{
    if n < m {
        lemma_bound_declarations_none(n, (m - 1) as nat, ds, generalize, effect, c);
    }
}

/// The model of an optional effect.
pub open spec fn opt_effect(effect: Option<Effect>) -> Option<Ty> {
    match effect {
        Some(e) => Some(e@),
        None => None,
    }
}

impl Declaration {
    fn bind_to_type(
        &mut self,
        generalize: bool,
        effect: &Option<Effect>,
        cache: &mut ModuleCache,
    ) -> (r: Option<()>)
        ensures
            match bound_declaration(old(self)@, generalize, opt_effect(*effect), old(cache)@) {
                None => r is None,
                Some((d, c)) => r is Some && final(self)@ == d && final(cache)@ == c,
            },
    {
        let none: Vec<RequiredTrait> = Vec::new();
        assert(required_traits(none@) =~= Seq::empty());
        match &self.typ {
            None => {
                return None;
            },
            Some(typ) => {
                bind_irrefutable_pattern(&mut self.lhs, typ, &none, generalize, cache)?;
            },
        }
        match effect {
            None => Some(()),
            Some(effect) => inject_into_pattern(&self.lhs, effect, cache),
        }
    }
}

/// Adds the effect to the type of each variable of the pattern.
fn inject_into_pattern(pattern: &Pattern, effect: &Effect, cache: &mut ModuleCache) -> (r: Option<
    (),
>)
    ensures
        is_cache(r, final(cache)@, for_each_variable(pattern@, old(cache)@, injecting(effect@))),
{
    let found = foreach_variable(pattern);
    let ghost vs = visits_of(pattern@);
    let ghost c = cache@;
    let ghost f = injecting(effect@);
    let mut i: usize = 0;
    while i < found.len()
        invariant
            i <= found.len(),
            vs == visits(found@),
            vs == visits_of(pattern@),
            c == old(cache)@,
            f == injecting(effect@),
            for_each(i as nat, vs, c, f) == Some(cache@),
        decreases found.len() - i,
    {
        assert(vs[i as int] == found@[i as int]@);
        match &found[i] {
            PatternVisit::Variable { definition, .. } => {
                let done = match definition {
                    Some(id) => inject_effect(*id, effect.clone(), cache),
                    None => None,
                };
                if done.is_none() {
                    proof {
                        lemma_for_each_none((i + 1) as nat, vs.len(), vs, c, f);
                    }
                    return None;
                }
            },
            PatternVisit::Invalid(location) => {
                cache.push_diagnostic(
                    *location,
                    DiagnosticKind::InvalidSyntaxInIrrefutablePattern,
                );
            },
        }
        i += 1;
    }
    Some(())
}

/// What a list of declarations makes of the cache, where it stands at the given level. Afterwards
/// the level is what it was before.
pub open spec fn declared_at(
    ds: Seq<Declared>,
    level: Option<LetBindingLevel>,
    generalize: bool,
    effect: Option<Ty>,
    c: Cache,
) -> Option<(Seq<Declared>, Cache)> {
    match level {
        None => None,
        Some(level) => match bound_declarations(
            ds.len(),
            ds,
            generalize,
            effect,
            c.at_level(level),
        ) {
            None => None,
            Some((ds1, c1)) => Some((ds1, c1.at_level(c.current_level))),
        },
    }
}

/// Binds the declarations to their types, at the given level.
fn declare_at(
    ds: &mut Vec<Declaration>,
    level: Option<LetBindingLevel>,
    generalize: bool,
    effect: &Option<Effect>,
    cache: &mut ModuleCache,
) -> (r: Option<()>)
    ensures
        match declared_at(
            declarations(old(ds)@),
            level,
            generalize,
            opt_effect(*effect),
            old(cache)@,
        ) {
            None => r is None,
            Some((ds1, c)) => r is Some && declarations(final(ds)@) == ds1 && final(cache)@ == c,
        },
{
    let own_level = level?;
    let previous_level = cache.current_level;
    cache.current_level = own_level;
    let ghost c = cache@;
    let ghost all = declarations(ds@);
    let ghost e = opt_effect(*effect);
    let mut i: usize = 0;
    assert(declarations(ds@).take(0) =~= Seq::empty());
    while i < ds.len()
        invariant
            i <= ds.len(),
            ds.len() == old(ds).len(),
            all == declarations(old(ds)@),
            e == opt_effect(*effect),
            level == Some(own_level),
            c == old(cache)@.at_level(own_level),
            previous_level == old(cache)@.current_level,
            forall|j: int| i <= j < ds.len() ==> ds@[j] == old(ds)@[j],
            bound_declarations(i as nat, all, generalize, e, c) == Some(
                (declarations(ds@).take(i as int), cache@),
            ),
        decreases ds.len() - i,
    {
        let ghost before = ds@;
        assert(all[i as int] == ds@[i as int]@);
        let declaration = &mut ds[i];
        let done = declaration.bind_to_type(generalize, effect, cache);
        if done.is_none() {
            proof {
                lemma_bound_declarations_none((i + 1) as nat, all.len(), all, generalize, e, c);
            }
            return None;
        }
        assert(declarations(ds@).take(i + 1) =~= declarations(before).take(i as int).push(
            ds@[i as int]@,
        ));
        i += 1;
    }
    assert(declarations(ds@).take(i as int) =~= declarations(ds@));
    cache.current_level = previous_level;
    Some(())
}

/// The definition of a trait.
#[derive(Debug)]
pub struct TraitDefinition {
    pub declarations: Vec<Declaration>,
    pub level: Option<LetBindingLevel>,
    pub location: Location,
    pub typ: Option<Type>,
}

impl Node for TraitDefinition {
    open spec fn tree(&self) -> Tree {
        Tree::TraitDefinition {
            declarations: declarations(self.declarations@),
            level: self.level,
            location: self.location,
            typ: opt_ty(self.typ),
        }
    }
}

impl Locatable for TraitDefinition {
    fn locate(&self) -> (r: Location) {
        self.location
    }
}

impl Typed for TraitDefinition {
    fn get_type(&self) -> (r: Option<&Type>) {
        self.typ.as_ref()
    }

    fn set_type(&mut self, typ: Type) {
        self.typ = Some(typ);
    }
}

impl Inferable for TraitDefinition {
    /// Each variable declared has its declared type, generalized.
    open spec fn rule(t: Tree, c: Cache) -> Option<Outcome> {
        match t {
            Tree::TraitDefinition { declarations, level, location, typ } => match declared_at(
                declarations,
                level,
                true,
                None,
                c,
            ) {
                None => None,
                Some((ds, c1)) => Some(
                    plain_outcome(
                        Tree::TraitDefinition { declarations: ds, level, location, typ },
                        unit_ty(),
                        c1,
                    ),
                ),
            },
            _ => None,
        }
    }

    fn infer_impl(&mut self, cache: &mut ModuleCache) -> (r: Option<TypeResult>) {
        declare_at(&mut self.declarations, self.level, true, &None, cache)?;
        Some(TypeResult::of(Type::unit(), cache))
    }
}

impl Expression for TraitDefinition {
    fn place(&self) -> (r: Place) {
        Place::Temporary(self.location)
    }

    fn as_lambda(&self) -> (r: Option<(&Vec<Pattern>, Option<&Type>)>) {
        None
    }
}

/// Declarations of functions that are defined elsewhere.
#[derive(Debug)]
pub struct Extern {
    pub declarations: Vec<Declaration>,
    pub level: Option<LetBindingLevel>,
    pub location: Location,
    pub typ: Option<Type>,
}

impl Node for Extern {
    open spec fn tree(&self) -> Tree {
        Tree::Extern {
            declarations: declarations(self.declarations@),
            level: self.level,
            location: self.location,
            typ: opt_ty(self.typ),
        }
    }
}

impl Locatable for Extern {
    fn locate(&self) -> (r: Location) {
        self.location
    }
}

impl Typed for Extern {
    fn get_type(&self) -> (r: Option<&Type>) {
        self.typ.as_ref()
    }

    fn set_type(&mut self, typ: Type) {
        self.typ = Some(typ);
    }
}

impl Inferable for Extern {
    /// Each variable declared has its declared type, generalized.
    open spec fn rule(t: Tree, c: Cache) -> Option<Outcome> {
        match t {
            Tree::Extern { declarations, level, location, typ } => match declared_at(
                declarations,
                level,
                true,
                None,
                c,
            ) {
                None => None,
                Some((ds, c1)) => Some(
                    plain_outcome(
                        Tree::Extern { declarations: ds, level, location, typ },
                        unit_ty(),
                        c1,
                    ),
                ),
            },
            _ => None,
        }
    }

    fn infer_impl(&mut self, cache: &mut ModuleCache) -> (r: Option<TypeResult>) {
        declare_at(&mut self.declarations, self.level, true, &None, cache)?;
        Some(TypeResult::of(Type::unit(), cache))
    }
}

impl Expression for Extern {
    fn place(&self) -> (r: Place) {
        Place::Temporary(self.location)
    }

    fn as_lambda(&self) -> (r: Option<(&Vec<Pattern>, Option<&Type>)>) {
        None
    }
}

/// The definition of an effect.
#[derive(Debug)]
pub struct EffectDefinition {
    pub declarations: Vec<Declaration>,
    pub effect_info: Option<EffectInfoId>,
    pub level: Option<LetBindingLevel>,
    pub location: Location,
    pub typ: Option<Type>,
}

impl Node for EffectDefinition {
    open spec fn tree(&self) -> Tree {
        Tree::EffectDefinition {
            declarations: declarations(self.declarations@),
            effect_info: self.effect_info,
            level: self.level,
            location: self.location,
            typ: opt_ty(self.typ),
        }
    }
}

impl Locatable for EffectDefinition {
    fn locate(&self) -> (r: Location) {
        self.location
    }
}

impl Typed for EffectDefinition {
    fn get_type(&self) -> (r: Option<&Type>) {
        self.typ.as_ref()
    }

    fn set_type(&mut self, typ: Type) {
        self.typ = Some(typ);
    }
}

/// The variables, as types.
pub open spec fn as_types(ids: Seq<TypeVariableId>) -> Seq<Ty> {
    Seq::new(ids.len(), |i: int| Ty::Variable(ids[i]))
}

/// The effect at the variables that it is generic over.
pub open spec fn own_effect(effect_info: Option<EffectInfoId>, c: Cache) -> Option<Ty> {
    match effect_info {
        None => None,
        Some(id) => if id.0 < c.effect_args.len() {
            Some(Ty::Effect(id, as_types(c.effect_args[id.0 as int])))
        } else {
            None
        },
    }
}

/// The effect at the variables that it is generic over.
fn effect_of(effect_info: Option<EffectInfoId>, cache: &ModuleCache) -> (r: Option<Effect>)
    ensures
        opt_effect(r) == own_effect(effect_info, cache@),
{
    let id = effect_info?;
    if id.0 >= cache.effect_infos.len() {
        return None;
    }
    let ids = &cache.effect_infos[id.0].typeargs;
    assert(cache@.effect_args[id.0 as int] == ids@);
    let mut args: Vec<Type> = Vec::new();
    let mut i: usize = 0;
    while i < ids.len()
        invariant
            i <= ids.len(),
            args.len() == i,
            forall|j: int| 0 <= j < i ==> (#[trigger] args@[j])@ == Ty::Variable(ids@[j]),
        decreases ids.len() - i,
    {
        args.push(Type::TypeVariable(ids[i]));
        i += 1;
    }
    assert(tys(args@) =~= as_types(ids@));
    Some(Effect { id, args })
}

impl Inferable for EffectDefinition {
    /// Each variable declared has its declared type with the effect added, generalized.
    open spec fn rule(t: Tree, c: Cache) -> Option<Outcome> {
        match t {
            Tree::EffectDefinition { declarations, effect_info, level, location, typ } => {
                match own_effect(effect_info, c) {
                    None => None,
                    Some(effect) => match declared_at(
                        declarations,
                        level,
                        false,
                        Some(effect),
                        c,
                    ) {
                        None => None,
                        Some((ds, c1)) => Some(
                            plain_outcome(
                                Tree::EffectDefinition {
                                    declarations: ds,
                                    effect_info,
                                    level,
                                    location,
                                    typ,
                                },
                                unit_ty(),
                                c1,
                            ),
                        ),
                    },
                }
            },
            _ => None,
        }
    }

    fn infer_impl(&mut self, cache: &mut ModuleCache) -> (r: Option<TypeResult>) {
        let effect = effect_of(self.effect_info, cache);
        if effect.is_none() {
            return None;
        }
        declare_at(&mut self.declarations, self.level, false, &effect, cache)?;
        Some(TypeResult::of(Type::unit(), cache))
    }
}

impl Expression for EffectDefinition {
    fn place(&self) -> (r: Place) {
        Place::Temporary(self.location)
    }

    fn as_lambda(&self) -> (r: Option<(&Vec<Pattern>, Option<&Type>)>) {
        None
    }
}

} // verus!
