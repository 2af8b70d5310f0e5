//! Rows of effects: what a row holds once its extension is followed, and how two rows compare.

use crate::bindings::UnificationBindings;
use crate::cache::{Binding, ModuleCache, TypeBinding};
use crate::resolve::{binding_of, find_binding};
use crate::types::{
    clone_effects, effect_tys, Effect, EffectInfoId, EffectSet, Ty, Type, TypeVariableId,
};
use vstd::prelude::*;

verus! {

/// A row of effects with its extension followed as far as it is known. `None` if that takes more
/// than `depth` steps, or the extension is bound to what is no row.
pub open spec fn flatten(
    depth: nat,
    effects: Seq<Ty>,
    extension: Option<TypeVariableId>,
    types: Map<usize, Ty>,
    vars: Seq<Binding>,
) -> Option<(Seq<Ty>, Option<TypeVariableId>)>
    decreases depth,
{
    if depth == 0 {
        None
    } else {
        let d = (depth - 1) as nat;
        match extension {
            None => Some((effects, None)),
            Some(id) => match binding_of(id, types, vars) {
                None => None,
                Some(Binding::Unbound(_, _)) => Some((effects, Some(id))),
                Some(Binding::Bound(Ty::Variable(v))) => {
                    flatten(d, effects, Some(v), types, vars)
                },
                Some(Binding::Bound(Ty::NamedGeneric(v, _))) => {
                    flatten(d, effects, Some(v), types, vars)
                },
                Some(Binding::Bound(Ty::Effects(more, end))) => {
                    flatten(d, effects + more, end, types, vars)
                },
                Some(Binding::Bound(_)) => None,
            },
        }
    }
}

/// The id of an effect.
pub open spec fn effect_id(t: Ty) -> EffectInfoId {
    match t {
        Ty::Effect(id, _) => id,
        _ => EffectInfoId(0),
    }
}

/// The arguments of an effect.
pub open spec fn effect_args(t: Ty) -> Seq<Ty> {
    match t {
        Ty::Effect(_, args) => args,
        _ => Seq::empty(),
    }
}

/// The position of the first effect with the given id.
pub open spec fn find_effect(effects: Seq<Ty>, id: EffectInfoId) -> Option<int>
    decreases effects.len(),
{
    if effects.len() == 0 {
        None
    } else {
        match find_effect(effects.drop_last(), id) {
            Some(i) => Some(i),
            None => if effect_id(effects.last()) == id {
                Some(effects.len() - 1)
            } else {
                None
            },
        }
    }
}

/// The effects whose id none of the others has.
pub open spec fn effects_without(effects: Seq<Ty>, others: Seq<Ty>) -> Seq<Ty>
    decreases effects.len(),
{
    if effects.len() == 0 {
        Seq::empty()
    } else {
        let before = effects_without(effects.drop_last(), others);
        if find_effect(others, effect_id(effects.last())) is None {
            before.push(effects.last())
        } else {
            before
        }
    }
}

/// The first effect with an id is found if there is one.
pub proof fn lemma_find_effect(effects: Seq<Ty>, id: EffectInfoId)
    ensures
        match find_effect(effects, id) {
            Some(i) => 0 <= i < effects.len() && effect_id(effects[i]) == id && forall|j: int|
                0 <= j < i ==> effect_id(#[trigger] effects[j]) != id,
            None => forall|j: int|
                0 <= j < effects.len() ==> effect_id(#[trigger] effects[j]) != id,
        },
    decreases effects.len(),
{
    if effects.len() > 0 {
        let front = effects.drop_last();
        lemma_find_effect(front, id);
        assert forall|j: int| 0 <= j < front.len() implies front[j] == #[trigger] effects[j] by {}
    }
}

/// A row of effects with its extension followed as far as it is known.
pub fn flatten_at(
    depth: u64,
    effects: &Vec<Effect>,
    extension: Option<TypeVariableId>,
    bindings: &UnificationBindings,
    cache: &ModuleCache,
) -> (r: Option<EffectSet>)
    ensures
        match flatten(
            depth as nat,
            effect_tys(effects@),
            extension,
            bindings@.types,
            cache@.type_bindings,
        ) {
            Some((es, end)) => r is Some && effect_tys(r->0.effects@) == es && r->0.extension
                == end,
            None => r is None,
        },
    decreases depth,
{
    if depth == 0 {
        return None;
    }
    let d: u64 = depth - 1;
    match extension {
        None => Some(EffectSet { effects: clone_effects(effects), extension: None }),
        Some(id) => {
            if id.0 >= cache.type_bindings.len() {
                return None;
            }
            match find_binding(id, bindings, cache) {
                TypeBinding::Unbound(_, _) => Some(
                    EffectSet { effects: clone_effects(effects), extension: Some(id) },
                ),
                TypeBinding::Bound(Type::TypeVariable(v)) => flatten_at(
                    d,
                    effects,
                    Some(v),
                    bindings,
                    cache,
                ),
                TypeBinding::Bound(Type::NamedGeneric(v, _)) => flatten_at(
                    d,
                    effects,
                    Some(v),
                    bindings,
                    cache,
                ),
                TypeBinding::Bound(Type::Effects(more)) => {
                    let mut all = clone_effects(effects);
                    let mut rest = more.effects;
                    let ghost before = effect_tys(all@) + effect_tys(rest@);
                    all.append(&mut rest);
                    assert(effect_tys(all@) =~= before);
                    flatten_at(d, &all, more.extension, bindings, cache)
                },
                TypeBinding::Bound(_) => None,
            }
        },
    }
}

/// The position of the first effect with the given id.
pub fn position_of_effect(effects: &Vec<Effect>, id: EffectInfoId) -> (r: Option<usize>)
    ensures
        match find_effect(effect_tys(effects@), id) {
            Some(i) => r is Some && r->0 == i && i < effects.len(),
            None => r is None,
        },
{
    let ghost es = effect_tys(effects@);
    let mut i: usize = 0;
    while i < effects.len()
        invariant
            i <= effects.len(),
            es == effect_tys(effects@),
            forall|j: int| 0 <= j < i ==> effect_id(#[trigger] es[j]) != id,
        decreases effects.len() - i,
    {
        assert(es[i as int] == effects@[i as int]@);
        if effects[i].id == id {
            proof {
                lemma_find_effect(es, id);
            }
            return Some(i);
        }
        i += 1;
    }
    proof {
        lemma_find_effect(es, id);
    }
    None
}

/// The effects whose id none of the others has.
pub fn without_effects(effects: &Vec<Effect>, others: &Vec<Effect>) -> (r: Vec<Effect>)
    ensures
        effect_tys(r@) == effects_without(effect_tys(effects@), effect_tys(others@)),
{
    let ghost es = effect_tys(effects@);
    let mut r: Vec<Effect> = Vec::new();
    let mut i: usize = 0;
    proof {
        assert(es.take(0) =~= Seq::empty());
        assert(effect_tys(r@) =~= Seq::empty());
    }
    while i < effects.len()
        invariant
            i <= effects.len(),
            es == effect_tys(effects@),
            effect_tys(r@) == effects_without(es.take(i as int), effect_tys(others@)),
        decreases effects.len() - i,
    {
        let ghost before = r@;
        proof {
            assert(es.take(i + 1).drop_last() =~= es.take(i as int));
            assert(es.take(i + 1).last() == effects@[i as int]@);
        }
        if position_of_effect(others, effects[i].id).is_none() {
            let e = effects[i].clone();
            r.push(e);
            assert(effect_tys(r@) =~= effect_tys(before).push(es[i as int]));
        }
        i += 1;
    }
    assert(es.take(i as int) =~= es);
    r
}

} // verus!
