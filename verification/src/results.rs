//! What inferring an expression comes to, and the types that inference builds.

use crate::cache::{constraints, Cache, Constraint, ModuleCache, TraitConstraints};
use crate::effect_sets::{any_effects, combined, effect_row, without_handled, EffectRow};
use crate::types::{
    effect_tys, tys, Effect, EffectSet, FloatKind, IntegerKind, PrimitiveType, Ty, Type, TypeInfoId,
    TypeVariableId,
};
use vstd::prelude::*;

verus! {

/// The index of the string type among the user-defined types.
pub const STRING_TYPE: usize = 0;

/// The index of the pair type among the user-defined types.
pub const PAIR_TYPE: usize = 1;

/// The type of an expression, the trait constraints that evaluating it gives rise to, and the
/// effects it may have.
#[derive(Debug)]
pub struct TypeResult {
    pub typ: Type,
    pub traits: TraitConstraints,
    pub effects: EffectSet,
}

/// The model of a `TypeResult`.
#[verifier::ext_equal]
pub struct Typing {
    pub typ: Ty,
    pub traits: Seq<Constraint>,
    pub effects: EffectRow,
}

impl View for TypeResult {
    type V = Typing;

    open spec fn view(&self) -> Typing {
        Typing {
            typ: self.typ@,
            traits: constraints(self.traits@),
            effects: effect_row(self.effects),
        }
    }
}

/// A result with the given type and constraints, whose effects are not known yet.
pub open spec fn result_of(typ: Ty, traits: Seq<Constraint>, c: Cache) -> (Typing, Cache) {
    (Typing { typ, traits, effects: any_effects(c) }, c.fresh(c.current_level))
}

/// The first result with the constraints and the effects of the second added.
pub open spec fn combined_results(a: Typing, b: Typing, c: Cache) -> Option<(Typing, Cache)> {
    match combined(a.effects, b.effects, c) {
        Some((effects, c1)) => Some(
            (Typing { typ: a.typ, traits: a.traits + b.traits, effects }, c1),
        ),
        None => None,
    }
}

impl Typing {
    /// The result with another type.
    pub open spec fn with_type(self, typ: Ty) -> Typing {
        Typing { typ, ..self }
    }
}

/// Appends the constraints.
pub fn append_constraints(traits: &mut TraitConstraints, more: &mut TraitConstraints)
    ensures
        constraints(final(traits)@) == constraints(old(traits)@) + constraints(old(more)@),
        constraints(final(more)@) == Seq::<Constraint>::empty(),
{
    let ghost sum = constraints(traits@) + constraints(more@);
    traits.append(more);
    assert(constraints(traits@) =~= sum);
    assert(constraints(more@) =~= Seq::empty());
}

impl TypeResult {
    /// A result whose effects are not known yet.
    pub fn new(typ: Type, traits: TraitConstraints, cache: &mut ModuleCache) -> (r: TypeResult)
        ensures
            (r@, final(cache)@) == result_of(typ@, constraints(traits@), old(cache)@),
    {
        TypeResult { typ, traits, effects: EffectSet::any(cache) }
    }

    /// A result without constraints, whose effects are not known yet.
    pub fn of(typ: Type, cache: &mut ModuleCache) -> (r: TypeResult)
        ensures
            (r@, final(cache)@) == result_of(typ@, Seq::empty(), old(cache)@),
    {
        let traits: TraitConstraints = Vec::new();
        assert(constraints(traits@) =~= Seq::empty());
        TypeResult { typ, traits, effects: EffectSet::any(cache) }
    }

    /// The result with another type.
    pub fn with_type(self, typ: Type) -> (r: TypeResult)
        ensures
            r@ == self@.with_type(typ@),
    {
        TypeResult { typ, traits: self.traits, effects: self.effects }
    }

    /// Adds the constraints and the effects of the other result to this one. The constraints are
    /// moved out of the other. `None` if a row of effects does not end.
    pub fn combine(&mut self, other: &mut TypeResult, cache: &mut ModuleCache) -> (r: Option<()>)
        ensures
            match combined_results(old(self)@, old(other)@, old(cache)@) {
                Some((all, c)) => r is Some && final(self)@ == all && final(cache)@ == c,
                None => r is None,
            },
            final(other)@ == (Typing { traits: Seq::empty(), ..old(other)@ }),
    {
        append_constraints(&mut self.traits, &mut other.traits);
        self.effects.combine(&other.effects, cache)
    }

    /// Adds the constraints, and takes the given effects away, which are then handled.
    pub fn handle_effects_from(
        &mut self,
        traits: TraitConstraints,
        effects: &EffectSet,
        handled_effects: &mut Vec<Effect>,
        cache: &ModuleCache,
    ) -> (r: Option<()>)
        ensures
            match without_handled(
                old(self)@.effects,
                effect_row(*effects),
                effect_tys(old(handled_effects)@),
                cache@,
            ) {
                Some((row, handled)) => r is Some && final(self)@ == (Typing {
                    typ: old(self)@.typ,
                    traits: old(self)@.traits + constraints(traits@),
                    effects: row,
                }) && effect_tys(final(handled_effects)@) == handled,
                None => r is None,
            },
    {
        let mut traits = traits;
        append_constraints(&mut self.traits, &mut traits);
        self.effects.handle_effects_from(effects, handled_effects, cache)
    }
}

/// The type of the unit value.
pub open spec fn unit_ty() -> Ty {
    Ty::Primitive(PrimitiveType::UnitType)
}

/// The type of booleans.
pub open spec fn bool_ty() -> Ty {
    Ty::Primitive(PrimitiveType::BooleanType)
}

/// A primitive type at one argument.
pub open spec fn applied(p: PrimitiveType, arg: Ty) -> Ty {
    Ty::Application(Box::new(Ty::Primitive(p)), seq![arg])
}

/// The type of pairs of the given elements.
pub open spec fn pair_ty(args: Seq<Ty>) -> Ty {
    Ty::Application(Box::new(Ty::UserDefined(TypeInfoId(PAIR_TYPE))), args)
}

/// The type of the nested pairs of all the given types.
pub open spec fn tuple_ty(types: Seq<Ty>) -> Ty
    decreases types.len(),
{
    if types.len() <= 1 {
        types[0]
    } else {
        pair_ty(seq![types[0], tuple_ty(types.skip(1))])
    }
}

/// A primitive type at one argument.
fn apply(p: PrimitiveType, arg: Type) -> (r: Type)
    ensures
        r@ == applied(p, arg@),
{
    let args = vec![arg];
    assert(tys(args@) =~= seq![arg@]);
    let constructor = Type::Primitive(p);
    assert(constructor@ == Ty::Primitive(p));
    Type::TypeApplication(Box::new(constructor), args)
}

impl Type {
    /// The type of the unit value.
    pub fn unit() -> (r: Type)
        ensures
            r@ == unit_ty(),
    {
        Type::Primitive(PrimitiveType::UnitType)
    }

    /// The integer type of the given kind.
    pub fn integer(kind: IntegerKind) -> (r: Type)
        ensures
            r@ == applied(
                PrimitiveType::IntegerType,
                Ty::Primitive(PrimitiveType::IntegerTag(kind)),
            ),
    {
        apply(PrimitiveType::IntegerType, Type::Primitive(PrimitiveType::IntegerTag(kind)))
    }

    /// The type of an integer whose kind is not known yet.
    pub fn polymorphic_int(var: TypeVariableId) -> (r: Type)
        ensures
            r@ == applied(PrimitiveType::IntegerType, Ty::Variable(var)),
    {
        apply(PrimitiveType::IntegerType, Type::TypeVariable(var))
    }

    /// The type of floats of the given kind.
    pub fn float(kind: FloatKind) -> (r: Type)
        ensures
            r@ == applied(
                PrimitiveType::FloatType,
                Ty::Primitive(PrimitiveType::FloatTag(kind)),
            ),
    {
        apply(PrimitiveType::FloatType, Type::Primitive(PrimitiveType::FloatTag(kind)))
    }

    /// The type of a float whose kind is not known yet.
    pub fn polymorphic_float(var: TypeVariableId) -> (r: Type)
        ensures
            r@ == applied(PrimitiveType::FloatType, Ty::Variable(var)),
    {
        apply(PrimitiveType::FloatType, Type::TypeVariable(var))
    }

    /// The type of pairs of the given elements.
    pub fn pair(args: Vec<Type>) -> (r: Type)
        ensures
            r@ == pair_ty(tys(args@)),
    {
        let constructor = Type::UserDefined(TypeInfoId(PAIR_TYPE));
        assert(constructor@ == Ty::UserDefined(TypeInfoId(PAIR_TYPE)));
        Type::TypeApplication(Box::new(constructor), args)
    }
}

/// Makes a tuple out of nested pairs of the given types. Since nothing ends the nesting, there
/// must be at least two.
pub fn make_tuple_type(types: Vec<Type>) -> (r: Type)
    requires
        types.len() > 1,
    ensures
        r@ == tuple_ty(tys(types@)),
{
    let ghost ts = tys(types@);
    let mut types = types;
    let mut ret = types.pop().unwrap();
    let ghost n: int = ts.len() as int;
    proof {
        assert(ts[n - 1] == ret@);
        assert(ts.skip(n - 1)[0] == ret@);
        assert(tuple_ty(ts.skip(n - 1)) == ret@);
    }
    while types.len() > 0
        invariant
            n == ts.len(),
            types.len() < n,
            forall|j: int| 0 <= j < types.len() ==> types@[j]@ == #[trigger] ts[j],
            ret@ == tuple_ty(ts.skip(types.len() as int)),
        decreases types.len(),
    {
        let ghost k: int = types.len() as int;
        let typ = types.pop().unwrap();
        assert(typ@ == ts[k - 1]);
        let args = vec![typ, ret];
        proof {
            let rest = ts.skip(k - 1);
            assert(rest.skip(1) =~= ts.skip(k));
            assert(rest[0] == typ@);
            assert(tys(args@) =~= seq![rest[0], tuple_ty(rest.skip(1))]);
            assert(rest.len() > 1);
        }
        ret = Type::pair(args);
    }
    assert(ts.skip(0) =~= ts);
    ret
}

} // verus!
