//! What declarations and literals come to: what is declared has its declared type, and the
//! operations of an effect have that effect.

use crate::agreement::committed;
use crate::cache::Cache;
use crate::declarations::{
    as_types, bound_declaration, bound_declarations, declared_at, EffectDefinition, Extern,
    TraitDefinition,
};
use crate::effect_flow::{lemma_unfold, row_has};
use crate::expressions::Literal;
use crate::inference_laws::{
    law_binding_goes_on, lemma_declaration, lemma_declarations, lemma_injecting,
};
use crate::pattern_laws::{
    is_generalization, is_of, law_bound_pattern_is_of_type, law_bound_variable_has_its_type,
};
use crate::patterns::{bound_pattern, for_each, visits_of, Pat, PatVar};
use crate::progress::{gains, goes_on, law_gains_further, lemma_fresh_goes_on};
use crate::results::{unit_ty, Typing, STRING_TYPE};
use crate::rule_laws::reports_nothing;
use crate::tree::{Declared, Inferable, LiteralKind, Tree};
use crate::types::{LetBindingLevel, PrimitiveType, Ty, TypeInfoId};
use crate::typevars::generalization;
use vstd::prelude::*;

verus! {

/// Whether the function type is the other one, with the effect among the effects. They are all the
/// effects it has: the ones it was declared with, and no others.
pub open spec fn adds_effect(t: Ty, u: Ty, effect: Ty) -> bool {
    t matches Ty::Function { parameters, return_type, environment, effects, has_varargs } && {
        &&& *effects is Effects
        &&& u is Function
        &&& u->parameters == parameters
        &&& u->return_type == return_type
        &&& u->environment == environment
        &&& u->has_varargs == has_varargs
        &&& *u->Function_effects matches Ty::Effects(list, None) && forall|e: Ty| #[trigger]
            list.contains(e) <==> e == effect || (*effects)->Effects_0.contains(e)
    }
}

/// A declared pattern is of the declared type, if nothing is reported. A variable declared has just
/// that type, generalized if that is asked for; or, where it is an operation of an effect, the
/// declared type with the effect added, generalized in any case.
pub proof fn law_declared_has_its_type(
    d: Declared,
    generalize: bool,
    effect: Option<Ty>,
    c: Cache,
)
    requires
        bound_declaration(d, generalize, effect, c) matches Some((_, c1)) && c1.type_bindings.len()
            <= usize::MAX,
    ensures
        ({
            let (d1, c1) = bound_declaration(d, generalize, effect, c)->0;
            &&& d.typ is Some
            &&& d1.typ == d.typ
            &&& reports_nothing(c, c1) ==> is_of(d.lhs, d1.lhs, d.typ->0, c1)
            &&& d.lhs matches Pat::Variable(v) ==> {
                &&& v.definition matches Some(id) && id.0 < c1.definition_infos.len()
                &&& c1.definition_infos[(v.definition->0).0 as int].typ matches Some(scheme)
                    && match effect {
                    None => scheme.body() == d.typ->0 && (generalize ==> is_generalization(
                        scheme,
                        scheme.body(),
                        c1,
                    )),
                    Some(e) => adds_effect(d.typ->0, scheme.body(), e) && is_generalization(
                        scheme,
                        scheme.body(),
                        c1,
                    ),
                }
            }
        }),
{
    let (d1, end) = bound_declaration(d, generalize, effect, c)->0;
    let typ = d.typ->0;
    let (lhs, c1) = bound_pattern(d.lhs, typ, Seq::empty(), generalize, c)->0;
    law_binding_goes_on(d.lhs, typ, Seq::empty(), generalize, c);
    let vs = visits_of(lhs);
    assert(goes_on(c1, end)) by {
        if let Some(e) = effect {
            lemma_injecting(vs.len(), vs, c1, e);
        }
    }
    assert(goes_on(c, c));
    if reports_nothing(c, end) {
        law_bound_pattern_is_of_type(d.lhs, typ, Seq::empty(), generalize, c, c, end);
    }
    if let Pat::Variable(v) = d.lhs {
        law_bound_variable_has_its_type(v, typ, Seq::empty(), generalize, c);
        if let Some(e) = effect {
            assert(lhs == Pat::Variable(PatVar { typ: lhs->Variable_0.typ, ..v }));
            assert(vs.len() == 1);
            reveal_with_fuel(for_each, 2);
            let id = v.definition->0;
            let scheme = end.definition_infos[id.0 as int].typ->0;
            let u = scheme.body();
            assert(generalization(u, c1) == Some(scheme));
            let before = (*typ->Function_effects)->Effects_0;
            let after = (*u->Function_effects)->Effects_0;
            assert forall|x: Ty| #[trigger] after.contains(x) <==> x == e || before.contains(
                x,
            ) by {
                if after != before {
                    assert(after == before.push(e));
                    if before.contains(x) {
                        let i = choose|i: int| 0 <= i < before.len() && before[i] == x;
                        assert(after[i] == x);
                    }
                    assert(after[before.len() as int] == e);
                }
            }
        }
    }
}

/// Whether the declaration was bound after one cache and before the other, at the given level.
pub open spec fn declared_between(
    d: Declared,
    d1: Declared,
    generalize: bool,
    effect: Option<Ty>,
    level: LetBindingLevel,
    before: Cache,
    after: Cache,
) -> bool {
    exists|c1: Cache|
        c1.current_level == level && gains(before, c1) && (#[trigger] bound_declaration(
            d,
            generalize,
            effect,
            c1,
        ) matches Some((own, c2)) && own == d1 && gains(c2, after))
}

/// Whether each of the declarations was bound, at the given level.
pub open spec fn all_declared(
    ds: Seq<Declared>,
    done: Seq<Declared>,
    generalize: bool,
    effect: Option<Ty>,
    level: LetBindingLevel,
    before: Cache,
    after: Cache,
) -> bool {
    &&& done.len() == ds.len()
    &&& forall|i: int|
        0 <= i < ds.len() ==> declared_between(
            ds[i],
            #[trigger] done[i],
            generalize,
            effect,
            level,
            before,
            after,
        )
}

proof fn lemma_declared_further(
    d: Declared,
    d1: Declared,
    generalize: bool,
    effect: Option<Ty>,
    level: LetBindingLevel,
    before: Cache,
    c: Cache,
    after: Cache,
)
    requires
        declared_between(d, d1, generalize, effect, level, before, c),
        gains(c, after),
    ensures
        declared_between(d, d1, generalize, effect, level, before, after),
{
    let c1 = choose|c1: Cache|
        c1.current_level == level && gains(before, c1) && (#[trigger] bound_declaration(
            d,
            generalize,
            effect,
            c1,
        ) matches Some((own, c2)) && own == d1 && gains(c2, c));
    let (_, c2) = bound_declaration(d, generalize, effect, c1)->0;
    law_gains_further(c2, c, after);
}

proof fn lemma_all_declared(
    n: nat,
    ds: Seq<Declared>,
    generalize: bool,
    effect: Option<Ty>,
    before: Cache,
    c: Cache,
)
    requires
        n <= ds.len(),
        bound_declarations(n, ds, generalize, effect, c) is Some,
        gains(before, c),
    ensures
        ({
            let (done, c1) = bound_declarations(n, ds, generalize, effect, c)->0;
            all_declared(
                ds.take(n as int),
                done,
                generalize,
                effect,
                c.current_level,
                before,
                c1,
            )
        }),
    decreases n,
{
    if n > 0 {
        let k = (n - 1) as nat;
        lemma_all_declared(k, ds, generalize, effect, before, c);
        let (front, c1) = bound_declarations(k, ds, generalize, effect, c)->0;
        let (last, c2) = bound_declaration(ds[n - 1], generalize, effect, c1)->0;
        lemma_declarations(k, ds, generalize, effect, c);
        lemma_declaration(ds[n - 1], generalize, effect, c1);
        law_gains_further(before, c, c1);
        let done = front.push(last);
        let level = c.current_level;
        assert forall|i: int| 0 <= i < n implies declared_between(
            ds.take(n as int)[i],
            #[trigger] done[i],
            generalize,
            effect,
            level,
            before,
            c2,
        ) by {
            if i < k {
                assert(ds.take(k as int)[i] == ds[i]);
                assert(front[i] == done[i]);
                lemma_declared_further(
                    ds[i],
                    front[i],
                    generalize,
                    effect,
                    level,
                    before,
                    c1,
                    c2,
                );
            } else {
                assert(gains(c2, c2));
            }
        }
    }
}

/// Whether the result is of the type, with no constraints and no effects.
pub open spec fn is_plain(r: Typing, typ: Ty, c: Cache) -> bool {
    &&& r.typ == typ
    &&& r.traits.len() == 0
    &&& forall|wanted: spec_fn(Ty) -> bool| !#[trigger] row_has(r.effects, wanted, committed(c))
}

proof fn lemma_declared_at(
    ds: Seq<Declared>,
    level: Option<LetBindingLevel>,
    generalize: bool,
    effect: Option<Ty>,
    c: Cache,
)
    requires
        declared_at(ds, level, generalize, effect, c) is Some,
    ensures
        ({
            let (done, c1) = declared_at(ds, level, generalize, effect, c)->0;
            &&& level is Some
            &&& c1.current_level == c.current_level
            &&& all_declared(
                ds,
                done,
                generalize,
                effect,
                level->0,
                c,
                c1.fresh(c1.current_level),
            )
        }),
{
    let own = c.at_level(level->0);
    let (done, c1) = bound_declarations(ds.len(), ds, generalize, effect, own)->0;
    assert(gains(c, own));
    lemma_all_declared(ds.len(), ds, generalize, effect, c, own);
    assert(ds.take(ds.len() as int) =~= ds);
    let c2 = c1.at_level(c.current_level);
    let end = c2.fresh(c2.current_level);
    lemma_fresh_goes_on(c2, c2.current_level);
    assert(gains(c1, end));
    assert forall|i: int| 0 <= i < ds.len() implies declared_between(
        ds[i],
        #[trigger] done[i],
        generalize,
        effect,
        level->0,
        c,
        end,
    ) by {
        lemma_declared_further(ds[i], done[i], generalize, effect, level->0, c, c1, end);
    }
}

/// The definition of a trait declares each of its members at its level, with the declared type,
/// generalized. It is of type unit itself, and leaves the level as it was.
pub proof fn law_trait_declares_its_members(t: Tree, c: Cache)
    requires
        t is TraitDefinition,
        TraitDefinition::rule(t, c) matches Some(o) && o.cache.type_bindings.len() <= usize::MAX,
    ensures
        ({
            let o = TraitDefinition::rule(t, c)->0;
            &&& o.tree is TraitDefinition
            &&& t->TraitDefinition_level is Some
            &&& all_declared(
                t->TraitDefinition_declarations,
                o.tree->TraitDefinition_declarations,
                true,
                None,
                t->TraitDefinition_level->0,
                c,
                o.cache,
            )
            &&& is_plain(o.result, unit_ty(), o.cache)
            &&& o.cache.current_level == c.current_level
        }),
{
    let o = TraitDefinition::rule(t, c)->0;
    let ds = t->TraitDefinition_declarations;
    lemma_declared_at(ds, t->TraitDefinition_level, true, None, c);
    assert forall|wanted: spec_fn(Ty) -> bool|
        !#[trigger] row_has(o.result.effects, wanted, committed(o.cache)) by {
        lemma_unfold(o.result.effects, wanted, committed(o.cache));
    }
}

/// What is defined elsewhere is declared at its level, with the declared type, generalized. The
/// declarations are of type unit themselves, and leave the level as it was.
pub proof fn law_extern_declares_all(t: Tree, c: Cache)
    requires
        t is Extern,
        Extern::rule(t, c) matches Some(o) && o.cache.type_bindings.len() <= usize::MAX,
    ensures
        ({
            let o = Extern::rule(t, c)->0;
            &&& o.tree is Extern
            &&& t->Extern_level is Some
            &&& all_declared(
                t->Extern_declarations,
                o.tree->Extern_declarations,
                true,
                None,
                t->Extern_level->0,
                c,
                o.cache,
            )
            &&& is_plain(o.result, unit_ty(), o.cache)
            &&& o.cache.current_level == c.current_level
        }),
{
    let o = Extern::rule(t, c)->0;
    let ds = t->Extern_declarations;
    lemma_declared_at(ds, t->Extern_level, true, None, c);
    assert forall|wanted: spec_fn(Ty) -> bool|
        !#[trigger] row_has(o.result.effects, wanted, committed(o.cache)) by {
        lemma_unfold(o.result.effects, wanted, committed(o.cache));
    }
}

/// The definition of an effect declares each of its operations, with the effect itself, at its own
/// variables, added to the effects of the declared type. It is of type unit itself, and leaves the
/// level as it was.
pub proof fn law_effect_declares_its_operations(t: Tree, c: Cache)
    requires
        t is EffectDefinition,
        EffectDefinition::rule(t, c) matches Some(o) && o.cache.type_bindings.len() <= usize::MAX,
    ensures
        ({
            let o = EffectDefinition::rule(t, c)->0;
            let id = t->EffectDefinition_effect_info->0;
            &&& o.tree is EffectDefinition
            &&& t->EffectDefinition_effect_info is Some
            &&& id.0 < c.effect_args.len()
            &&& t->EffectDefinition_level is Some
            &&& exists|args: Seq<Ty>|
                args.len() == c.effect_args[id.0 as int].len() && (forall|i: int|
                    0 <= i < args.len() ==> #[trigger] args[i] == Ty::Variable(
                        c.effect_args[id.0 as int][i],
                    )) && #[trigger] all_declared(
                    t->EffectDefinition_declarations,
                    o.tree->EffectDefinition_declarations,
                    false,
                    Some(Ty::Effect(id, args)),
                    t->EffectDefinition_level->0,
                    c,
                    o.cache,
                )
            &&& is_plain(o.result, unit_ty(), o.cache)
            &&& o.cache.current_level == c.current_level
        }),
{
    let o = EffectDefinition::rule(t, c)->0;
    let ds = t->EffectDefinition_declarations;
    let id = t->EffectDefinition_effect_info->0;
    let vars = c.effect_args[id.0 as int];
    let args = Seq::new(vars.len(), |i: int| Ty::Variable(vars[i]));
    let level = t->EffectDefinition_level;
    assert(as_types(vars) =~= args);
    lemma_declared_at(ds, level, false, Some(Ty::Effect(id, args)), c);
    assert(all_declared(
        ds,
        o.tree->EffectDefinition_declarations,
        false,
        Some(Ty::Effect(id, args)),
        level->0,
        c,
        o.cache,
    ));
    assert forall|wanted: spec_fn(Ty) -> bool|
        !#[trigger] row_has(o.result.effects, wanted, committed(o.cache)) by {
        lemma_unfold(o.result.effects, wanted, committed(o.cache));
    }
}

/// A literal is of the type that is written after it. A number without one is of any type of
/// numbers: its kind is a new variable. It has no constraints and no effects, nothing is reported
/// and nothing is bound.
pub proof fn law_literal_has_its_type(t: Tree, c: Cache)
    requires
        t is Literal,
        Literal::rule(t, c) matches Some(o) && o.cache.type_bindings.len() <= usize::MAX,
    ensures
        ({
            let o = Literal::rule(t, c)->0;
            let typ = o.result.typ;
            &&& o.tree == t
            &&& is_plain(o.result, typ, o.cache)
            &&& reports_nothing(c, o.cache)
            &&& c.type_bindings.len() <= o.cache.type_bindings.len()
            &&& forall|i: int|
                0 <= i < c.type_bindings.len() ==> #[trigger] o.cache.type_bindings[i]
                    == c.type_bindings[i]
            &&& match t->kind {
                LiteralKind::Integer(kind) => is_number(
                    typ,
                    PrimitiveType::IntegerType,
                    match kind {
                        Some(k) => Some(PrimitiveType::IntegerTag(k)),
                        None => None,
                    },
                    c,
                ),
                LiteralKind::Float(kind) => is_number(
                    typ,
                    PrimitiveType::FloatType,
                    match kind {
                        Some(k) => Some(PrimitiveType::FloatTag(k)),
                        None => None,
                    },
                    c,
                ),
                LiteralKind::String => typ == Ty::UserDefined(TypeInfoId(STRING_TYPE)),
                LiteralKind::Char => typ == Ty::Primitive(PrimitiveType::CharType),
                LiteralKind::Bool => typ == Ty::Primitive(PrimitiveType::BooleanType),
                LiteralKind::Unit => typ == Ty::Primitive(PrimitiveType::UnitType),
            }
        }),
{
    let o = Literal::rule(t, c)->0;
    assert forall|wanted: spec_fn(Ty) -> bool|
        !#[trigger] row_has(o.result.effects, wanted, committed(o.cache)) by {
        lemma_unfold(o.result.effects, wanted, committed(o.cache));
    }
}

/// Whether the type is one of numbers of the given kind, or of any if none is given.
pub open spec fn is_number(
    t: Ty,
    numbers: PrimitiveType,
    kind: Option<PrimitiveType>,
    before: Cache,
) -> bool {
    t matches Ty::Application(constructor, args) && *constructor == Ty::Primitive(numbers)
        && args.len() == 1 && match kind {
        Some(k) => args[0] == Ty::Primitive(k),
        None => args[0] matches Ty::Variable(v) && v.0 >= before.type_bindings.len(),
    }
}

} // verus!
