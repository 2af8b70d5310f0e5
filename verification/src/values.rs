//! Definitions of values, and the variables that refer to them.

use crate::bindings::{types_of, TypeBindings};
use crate::cache::{
    constraints, required_traits, Cache, Constraint, Def, DefinitionInfoId, GeneralizedType,
    ImplScopeId, Location, ModuleCache, RequiredTrait, Scheme, TraitConstraints, VariableId,
};
use crate::definitions::{
    finish_pattern, function_initialized, initialize_function_type, mark_pattern_ids_in_progress,
    marking, set_definition_type, unmarking,
};
use crate::effect_sets::{effect_row, EffectRow};
use crate::expressions::plain_outcome;
use crate::instantiate::{constraint_count, constraints_of_use, instance, to_trait_constraints};
use crate::patterns::{
    bind_irrefutable_pattern, bound_pattern, for_each_variable, opt_ty, Pat, Pattern,
};
use crate::results::{result_of, unit_ty, TypeResult, Typing};
use crate::subst::next_type_variable;
use crate::tree::{
    infer, inferred, is_inferred, Expression, Inferable, Locatable, Node, Outcome, Tree, Typed,
};
use crate::types::{EffectSet, LetBindingLevel, Ty, Type};
use vstd::prelude::*;

verus! {

/// The definition of the variables of a pattern.
#[derive(Debug)]
pub struct Definition<A> {
    pub pattern: Pattern,
    pub expr: Box<A>,
    pub level: Option<LetBindingLevel>,
    pub location: Location,
    pub typ: Option<Type>,
}

impl<A: Node> Node for Definition<A> {
    open spec fn tree(&self) -> Tree {
        Tree::Definition {
            pattern: self.pattern@,
            expr: Box::new(self.expr.tree()),
            level: self.level,
            location: self.location,
            typ: opt_ty(self.typ),
        }
    }
}

impl<A: Node> Locatable for Definition<A> {
    fn locate(&self) -> (r: Location) {
        self.location
    }
}

impl<A: Node> Typed for Definition<A> {
    fn get_type(&self) -> (r: Option<&Type>) {
        self.typ.as_ref()
    }

    fn set_type(&mut self, typ: Type) {
        self.typ = Some(typ);
    }
}

/// A definition whose inference has begun.
#[derive(Debug)]
pub enum BegunDefinition {
    /// It was inferred before: there is nothing more to do.
    Done(TypeResult),
    /// The value was inferred, and the pattern bound to its type. Before it is finished, the
    /// definition is generalized if it can be, and the constraints of the value that this leaves
    /// are handed to `finish`.
    Value { result: TypeResult, previous_level: LetBindingLevel },
}

/// The model of a `BegunDefinition`, with the tree and the cache left behind.
#[verifier::ext_equal]
pub enum Begun {
    Done(Outcome),
    Value(Outcome, LetBindingLevel),
}

/// The pattern, which has the given type if it had none.
pub open spec fn with_some_type(p: Pat, t: Ty) -> Pat {
    if p.typ() is None {
        p.with_type(t)
    } else {
        p
    }
}

/// What beginning to infer a definition comes to. Its variables are marked as in progress while
/// the value is inferred, which happens at the level of the definition; the pattern is bound one
/// level below it.
pub open spec fn definition_begun<A: Inferable>(t: Tree, c: Cache) -> Option<Begun> {
    match t {
        Tree::Definition { pattern, expr, level, location, typ } => if typ is Some {
            Some(Begun::Done(plain_outcome(t, unit_ty(), c)))
        } else {
            let initialized = match expr.lambda_of() {
                Some((args, body_type)) => function_initialized(pattern, args, body_type, c),
                None => Some(c),
            };
            match initialized {
                None => None,
                Some(c1) => match for_each_variable(pattern, c1, marking()) {
                    None => None,
                    Some(c2) => match level {
                        None => None,
                        Some(own) => match inferred::<A>(*expr, c2.at_level(own)) {
                            None => None,
                            Some(o) => if own.0 == 0 {
                                None
                            } else {
                                match bound_pattern(
                                    pattern,
                                    o.result.typ,
                                    Seq::empty(),
                                    false,
                                    o.cache.at_level(LetBindingLevel((own.0 - 1) as usize)),
                                ) {
                                    None => None,
                                    Some((pattern1, cache)) => Some(
                                        Begun::Value(
                                            Outcome {
                                                tree: Tree::Definition {
                                                    pattern: with_some_type(
                                                        pattern1,
                                                        o.result.typ,
                                                    ),
                                                    expr: Box::new(o.tree),
                                                    level,
                                                    location,
                                                    typ: Some(unit_ty()),
                                                },
                                                result: o.result,
                                                cache,
                                            },
                                            c2.current_level,
                                        ),
                                    ),
                                }
                            },
                        },
                    },
                },
            }
        },
        _ => None,
    }
}

/// What finishing a definition comes to: the level is what it was before, and the variables of the
/// pattern are no longer in progress. The definition is of type unit and has the effects of the
/// value.
pub open spec fn definition_finished(
    pattern: Pat,
    effects: EffectRow,
    traits: Seq<Constraint>,
    previous_level: LetBindingLevel,
    mutually_recursive: Seq<DefinitionInfoId>,
    c: Cache,
) -> Option<(Typing, Cache)> {
    match for_each_variable(
        pattern,
        c.at_level(previous_level),
        unmarking(mutually_recursive),
    ) {
        None => None,
        Some(c1) => {
            let (result, c2) = result_of(unit_ty(), traits, c1);
            Some((Typing { effects, ..result }, c2))
        },
    }
}

impl<A: Expression> Definition<A> {
    /// Begins to infer the definition, up to where it is generalized.
    pub fn begin(&mut self, cache: &mut ModuleCache) -> (r: Option<BegunDefinition>)
        ensures
            match definition_begun::<A>(old(self).tree(), old(cache)@) {
                None => r is None,
                Some(Begun::Done(o)) => r matches Some(BegunDefinition::Done(result)) && result@
                    == o.result && final(self).tree() == o.tree && final(cache)@ == o.cache,
                Some(Begun::Value(o, previous)) => r matches Some(
                    BegunDefinition::Value { result, previous_level },
                ) && result@ == o.result && previous_level == previous && final(self).tree()
                    == o.tree && final(cache)@ == o.cache,
            },
    {
        if self.typ.is_some() {
            return Some(BegunDefinition::Done(TypeResult::of(Type::unit(), cache)));
        }
        // The type is set before the value is inferred: a recursive use does not begin anew.
        self.typ = Some(Type::unit());
        if let Some((args, body_type)) = self.expr.as_lambda() {
            initialize_function_type(&self.pattern, args, body_type, cache)?;
        }
        mark_pattern_ids_in_progress(&self.pattern, cache)?;
        let level = self.level?;
        let previous_level = cache.current_level;
        cache.current_level = level;
        let result = infer(&mut *self.expr, cache)?;
        if level.0 == 0 {
            return None;
        }
        cache.current_level = LetBindingLevel(level.0 - 1);
        let none: Vec<RequiredTrait> = Vec::new();
        assert(required_traits(none@) =~= Seq::empty());
        bind_irrefutable_pattern(&mut self.pattern, &result.typ, &none, false, cache)?;
        if self.pattern.get_type().is_none() {
            self.pattern.set_type(result.typ.clone());
        }
        Some(BegunDefinition::Value { result, previous_level })
    }

    /// Finishes a definition whose value was inferred: with the effects of the value, and those
    /// constraints of it that are not constraints of the definition now. The definitions in the
    /// list wait for others that they are mutually recursive with.
    pub fn finish(
        &self,
        effects: EffectSet,
        traits: TraitConstraints,
        previous_level: LetBindingLevel,
        mutually_recursive: &[DefinitionInfoId],
        cache: &mut ModuleCache,
    ) -> (r: Option<TypeResult>)
        ensures
            match definition_finished(
                self.pattern@,
                effect_row(effects),
                constraints(traits@),
                previous_level,
                mutually_recursive@,
                old(cache)@,
            ) {
                None => r is None,
                Some((result, c)) => r is Some && r->0@ == result && final(cache)@ == c,
            },
    {
        cache.current_level = previous_level;
        finish_pattern(&self.pattern, mutually_recursive, cache)?;
        let mut result = TypeResult::new(Type::unit(), traits, cache);
        result.effects = effects;
        Some(result)
    }
}

/// A use of a variable.
#[derive(Debug)]
pub struct Variable {
    pub definition: Option<DefinitionInfoId>,
    pub impl_scope: Option<ImplScopeId>,
    pub id: Option<VariableId>,
    pub instantiation_mapping: TypeBindings,
    pub location: Location,
    pub typ: Option<Type>,
}

impl Node for Variable {
    open spec fn tree(&self) -> Tree {
        Tree::Variable {
            definition: self.definition,
            impl_scope: self.impl_scope,
            id: self.id,
            mapping: types_of(self.instantiation_mapping@),
            location: self.location,
            typ: opt_ty(self.typ),
        }
    }
}

impl Locatable for Variable {
    fn locate(&self) -> (r: Location) {
        self.location
    }
}

impl Typed for Variable {
    fn get_type(&self) -> (r: Option<&Type>) {
        self.typ.as_ref()
    }

    fn set_type(&mut self, typ: Type) {
        self.typ = Some(typ);
    }
}

/// What is known of the variable that is used.
#[derive(Debug)]
pub enum VariableLookup {
    /// Its type, and the constraints of the use.
    Known(GeneralizedType, TraitConstraints),
    /// Its definition is to be inferred first.
    Nested(DefinitionInfoId, ImplScopeId, VariableId),
}

/// The model of a `VariableLookup`, with the cache left behind.
#[verifier::ext_equal]
pub enum Looked {
    Known(Scheme, Seq<Constraint>, Cache),
    Nested(DefinitionInfoId, ImplScopeId, VariableId),
}

/// What looking up the type of a variable comes to. A variable without any definition to infer
/// gets a fresh type variable.
pub open spec fn looked_up(t: Tree, c: Cache) -> Option<Looked> {
    match t {
        Tree::Variable {
            definition: Some(id),
            impl_scope: Some(scope),
            id: Some(callsite),
            ..
        } => if id.0 >= c.definition_infos.len() {
            None
        } else {
            let info = c.definition_infos[id.0 as int];
            match info.typ {
                Some(scheme) => if c.next_constraint + constraint_count(c, id) <= usize::MAX {
                    Some(
                        Looked::Known(
                            scheme,
                            constraints_of_use(c, id, scope, callsite),
                            Cache {
                                next_constraint: (c.next_constraint + constraint_count(
                                    c,
                                    id,
                                )) as usize,
                                ..c
                            },
                        ),
                    )
                } else {
                    None
                },
                None => if info.definition is Some {
                    Some(Looked::Nested(id, scope, callsite))
                } else {
                    let scheme = Scheme::Mono(Ty::Variable(c.next_id()));
                    Some(
                        Looked::Known(
                            scheme,
                            Seq::empty(),
                            c.fresh(c.current_level).with_definition(
                                id,
                                Def { typ: Some(scheme), ..info },
                            ),
                        ),
                    )
                },
            }
        },
        _ => None,
    }
}

/// The outcome of using a variable of the given type.
pub open spec fn variable_used(
    t: Tree,
    scheme: Scheme,
    traits: Seq<Constraint>,
    c: Cache,
) -> Option<Outcome> {
    match t {
        Tree::Variable { definition, impl_scope, id, location, typ, .. } => match instance(
            scheme,
            traits,
            c,
        ) {
            None => None,
            Some(i) => {
                let (result, cache) = result_of(i.typ, i.traits, i.cache);
                Some(
                    Outcome {
                        tree: Tree::Variable {
                            definition,
                            impl_scope,
                            id,
                            mapping: i.types,
                            location,
                            typ,
                        },
                        result,
                        cache,
                    },
                )
            },
        },
        _ => None,
    }
}

impl Variable {
    /// Looks up the type of the variable.
    pub fn lookup(&self, cache: &mut ModuleCache) -> (r: Option<VariableLookup>)
        ensures
            match looked_up(self.tree(), old(cache)@) {
                None => r is None,
                Some(Looked::Known(scheme, traits, c)) => r matches Some(
                    VariableLookup::Known(typ, more),
                ) && typ@ == scheme && constraints(more@) == traits && final(cache)@ == c,
                Some(Looked::Nested(id, scope, callsite)) => r == Some(
                    VariableLookup::Nested(id, scope, callsite),
                ) && final(cache)@ == old(cache)@,
            },
    {
        let id = self.definition?;
        let scope = self.impl_scope?;
        let callsite = self.id?;
        if id.0 >= cache.definition_infos.len() {
            return None;
        }
        assert(cache@.definition_infos[id.0 as int] == cache.definition_infos@[id.0 as int]@);
        let known = match &cache.definition_infos[id.0].typ {
            Some(typ) => Some(typ.clone()),
            None => None,
        };
        if let Some(typ) = known {
            let traits = to_trait_constraints(id, scope, callsite, cache)?;
            return Some(VariableLookup::Known(typ, traits));
        }
        if cache.definition_infos[id.0].definition.is_some() {
            return Some(VariableLookup::Nested(id, scope, callsite));
        }
        let typ = GeneralizedType::MonoType(next_type_variable(cache));
        set_definition_type(id, typ.clone(), cache);
        let traits: TraitConstraints = Vec::new();
        assert(constraints(traits@) =~= Seq::empty());
        Some(VariableLookup::Known(typ, traits))
    }

    /// Infers the use of the variable, where its type is known:
    ///
    /// ```text
    ///   x : s in c    t = instantiate s
    /// -----------------------------------
    ///            c |- x : t
    /// ```
    pub fn infer_use(
        &mut self,
        typ: &GeneralizedType,
        traits: TraitConstraints,
        cache: &mut ModuleCache,
    ) -> (r: Option<TypeResult>)
        ensures
            is_inferred(
                r,
                final(self).tree(),
                final(cache)@,
                variable_used(old(self).tree(), typ@, constraints(traits@), old(cache)@),
            ),
    {
        let (t, traits, mapping) = typ.instantiate_at(traits, cache)?;
        self.instantiation_mapping = mapping;
        Some(TypeResult::new(t, traits, cache))
    }
}

} // verus!
