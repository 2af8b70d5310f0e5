//! The effects of evaluating an expression: starting from none known, joining those of several
//! parts, and handling some of them.

use crate::bindings::UnificationBindings;
use crate::cache::{Binding, Cache, ModuleCache};
use crate::effects::{flatten, flatten_at};
use crate::resolve::{binding_of, MAX_DEPTH};
use crate::subst::next_type_variable_id;
use crate::types::{clone_effects, effect_tys, Effect, EffectSet, Ty, Type, TypeVariableId};
use vstd::prelude::*;

verus! {

/// The effects of a row, and its extension.
pub type EffectRow = (Seq<Ty>, Option<TypeVariableId>);

/// The model of a set of effects.
pub open spec fn effect_row(set: EffectSet) -> EffectRow {
    (effect_tys(set.effects@), set.extension)
}

/// The row that holds no effect yet, and may turn out to hold any.
pub open spec fn any_effects(c: Cache) -> EffectRow {
    (Seq::empty(), Some(c.next_id()))
}

/// The row with its extension followed through the cache.
pub open spec fn flat(row: EffectRow, c: Cache) -> Option<EffectRow> {
    flatten(MAX_DEPTH as nat, row.0, row.1, Map::empty(), c.type_bindings)
}

/// The effects that are not among the others.
pub open spec fn missing_from(effects: Seq<Ty>, others: Seq<Ty>) -> Seq<Ty>
    decreases effects.len(),
{
    if effects.len() == 0 {
        Seq::empty()
    } else {
        let front = missing_from(effects.drop_last(), others);
        if others.contains(effects.last()) {
            front
        } else {
            front.push(effects.last())
        }
    }
}

/// The row that holds the effects of both rows. Two different extensions become one: each of the
/// two rows is extended with the effects that only the other has.
pub open spec fn combined(a: EffectRow, b: EffectRow, c: Cache) -> Option<(EffectRow, Cache)> {
    match (flat(a, c), flat(b, c)) {
        (Some((xs, end1)), Some((ys, end2))) => {
            let only1 = missing_from(xs, ys);
            let only2 = missing_from(ys, xs);
            match (end1, end2) {
                (Some(x), Some(y)) => if x == y {
                    Some(((xs + only2, Some(x)), c))
                } else {
                    let z = c.next_id();
                    Some(
                        (
                            (xs + only2, Some(z)),
                            c.fresh(c.current_level).bind(x, Ty::Effects(only2, Some(z))).bind(
                                y,
                                Ty::Effects(only1, Some(z)),
                            ),
                        ),
                    )
                },
                (Some(x), None) => Some(((xs + only2, Some(x)), c)),
                (None, end) => Some(((xs + only2, end), c)),
            }
        },
        _ => None,
    }
}

/// The first row without the effects of the second, and the handled effects with those that this
/// took away.
pub open spec fn without_handled(
    row: EffectRow,
    effects: EffectRow,
    handled: Seq<Ty>,
    c: Cache,
) -> Option<(EffectRow, Seq<Ty>)> {
    match (flat(row, c), flat(effects, c)) {
        (Some((xs, end)), Some((ys, _))) => Some(
            ((missing_from(xs, ys), end), add_handled(ys, xs, handled)),
        ),
        _ => None,
    }
}

/// The handled effects, with each of the effects added that is among the present ones and was not
/// handled yet.
pub open spec fn add_handled(effects: Seq<Ty>, present: Seq<Ty>, handled: Seq<Ty>) -> Seq<Ty>
    decreases effects.len(),
{
    if effects.len() == 0 {
        handled
    } else {
        let front = add_handled(effects.drop_last(), present, handled);
        if present.contains(effects.last()) && !front.contains(effects.last()) {
            front.push(effects.last())
        } else {
            front
        }
    }
}

/// Whether the effect is among the effects.
pub fn has_effect(effects: &Vec<Effect>, effect: &Effect) -> (r: bool)
    ensures
        r == effect_tys(effects@).contains(effect@),
{
    let ghost es = effect_tys(effects@);
    let mut i: usize = 0;
    while i < effects.len()
        invariant
            i <= effects.len(),
            es == effect_tys(effects@),
            forall|j: int| 0 <= j < i ==> es[j] != effect@,
        decreases effects.len() - i,
    {
        assert(es[i as int] == effects@[i as int]@);
        if effects[i] == *effect {
            return true;
        }
        i += 1;
    }
    false
}

/// The effects that are not among the others.
fn effects_missing_from(effects: &Vec<Effect>, others: &Vec<Effect>) -> (r: Vec<Effect>)
    ensures
        effect_tys(r@) == missing_from(effect_tys(effects@), effect_tys(others@)),
{
    let ghost es = effect_tys(effects@);
    let mut r: Vec<Effect> = Vec::new();
    let mut i: usize = 0;
    proof {
        assert(es.take(0) =~= Seq::empty());
        assert(effect_tys(r@) =~= Seq::empty());
    }
    while i < effects.len()
        invariant
            i <= effects.len(),
            es == effect_tys(effects@),
            effect_tys(r@) == missing_from(es.take(i as int), effect_tys(others@)),
        decreases effects.len() - i,
    {
        let ghost before = r@;
        proof {
            assert(es.take(i + 1).drop_last() =~= es.take(i as int));
            assert(es.take(i + 1).last() == effects@[i as int]@);
        }
        if !has_effect(others, &effects[i]) {
            r.push(effects[i].clone());
            assert(effect_tys(r@) =~= effect_tys(before).push(es[i as int]));
        }
        i += 1;
    }
    assert(es.take(i as int) =~= es);
    r
}

impl EffectSet {
    /// The set that may turn out to hold any effects.
    pub fn any(cache: &mut ModuleCache) -> (r: EffectSet)
        ensures
            effect_row(r) == any_effects(old(cache)@),
            final(cache)@ == old(cache)@.fresh(old(cache)@.current_level),
    {
        let effects: Vec<Effect> = Vec::new();
        assert(effect_tys(effects@) =~= Seq::empty());
        EffectSet { effects, extension: Some(next_type_variable_id(cache)) }
    }

    /// The set of the given effects and no others.
    pub fn only(effects: Vec<Effect>) -> (r: EffectSet)
        ensures
            effect_row(r) == (effect_tys(effects@), None::<TypeVariableId>),
    {
        EffectSet { effects, extension: None }
    }

    /// The set with its extension followed as far as the cache knows it. `None` if that does not
    /// end.
    pub fn flatten(&self, cache: &ModuleCache) -> (r: Option<EffectSet>)
        ensures
            match flat(effect_row(*self), cache@) {
                Some(row) => r is Some && effect_row(r->0) == row,
                None => r is None,
            },
    {
        let none = UnificationBindings::empty();
        flatten_at(MAX_DEPTH, &self.effects, self.extension, &none, cache)
    }

    /// Adds the effects of the other set to this one.
    pub fn combine(&mut self, other: &EffectSet, cache: &mut ModuleCache) -> (r: Option<()>)
        ensures
            match combined(effect_row(*old(self)), effect_row(*other), old(cache)@) {
                Some((row, c)) => r is Some && effect_row(*final(self)) == row && final(cache)@
                    == c,
                None => r is None,
            },
    {
        let a = self.flatten(cache)?;
        let b = other.flatten(cache)?;
        let ghost c = cache@;
        let only1 = effects_missing_from(&a.effects, &b.effects);
        let only2 = effects_missing_from(&b.effects, &a.effects);
        let mut all = a.effects;
        let mut added = clone_effects(&only2);
        let ghost sum = effect_tys(all@) + effect_tys(added@);
        all.append(&mut added);
        assert(effect_tys(all@) =~= sum);
        let extension = match (a.extension, b.extension) {
            (Some(x), Some(y)) => if x == y {
                Some(x)
            } else {
                proof {
                    lemma_flat_end(effect_row(*self), c);
                    lemma_flat_end(effect_row(*other), c);
                }
                let z = next_type_variable_id(cache);
                let row1 = Type::Effects(EffectSet { effects: only2, extension: Some(z) });
                let row2 = Type::Effects(EffectSet { effects: only1, extension: Some(z) });
                cache.bind(x, row1);
                cache.bind(y, row2);
                Some(z)
            },
            (Some(x), None) => Some(x),
            (None, end) => end,
        };
        *self = EffectSet { effects: all, extension };
        Some(())
    }

    /// Takes the given effects away from this set, and adds those taken away to the handled ones.
    pub fn handle_effects_from(
        &mut self,
        effects: &EffectSet,
        handled: &mut Vec<Effect>,
        cache: &ModuleCache,
    ) -> (r: Option<()>)
        ensures
            match without_handled(
                effect_row(*old(self)),
                effect_row(*effects),
                effect_tys(old(handled)@),
                cache@,
            ) {
                Some((row, all)) => r is Some && effect_row(*final(self)) == row && effect_tys(
                    final(handled)@,
                ) == all,
                None => r is None,
            },
    {
        let a = self.flatten(cache)?;
        let b = effects.flatten(cache)?;
        let ghost ys = effect_tys(b.effects@);
        let ghost xs = effect_tys(a.effects@);
        let ghost before = effect_tys(handled@);
        let mut i: usize = 0;
        assert(ys.take(0) =~= Seq::empty());
        while i < b.effects.len()
            invariant
                i <= b.effects.len(),
                ys == effect_tys(b.effects@),
                xs == effect_tys(a.effects@),
                effect_tys(handled@) == add_handled(ys.take(i as int), xs, before),
            decreases b.effects.len() - i,
        {
            let ghost now = effect_tys(handled@);
            proof {
                assert(ys.take(i + 1).drop_last() =~= ys.take(i as int));
                assert(ys.take(i + 1).last() == b.effects@[i as int]@);
            }
            if has_effect(&a.effects, &b.effects[i]) && !has_effect(handled, &b.effects[i]) {
                handled.push(b.effects[i].clone());
                assert(effect_tys(handled@) =~= now.push(ys[i as int]));
            }
            i += 1;
        }
        assert(ys.take(i as int) =~= ys);
        let rest = effects_missing_from(&a.effects, &b.effects);
        *self = EffectSet { effects: rest, extension: a.extension };
        Some(())
    }
}

/// Where a row is open once it is followed, its extension is an unbound variable of the cache.
pub proof fn lemma_flat_end(row: EffectRow, c: Cache)
    ensures
        flat(row, c) matches Some((_, Some(x))) ==> x.0 < c.type_bindings.len()
            && c.type_bindings[x.0 as int] is Unbound,
{
    lemma_flatten_end(MAX_DEPTH as nat, row.0, row.1, c);
}

proof fn lemma_flatten_end(
    depth: nat,
    effects: Seq<Ty>,
    extension: Option<TypeVariableId>,
    c: Cache,
)
    ensures
        flatten(depth, effects, extension, Map::empty(), c.type_bindings) matches Some(
            (_, Some(x)),
        ) ==> x.0 < c.type_bindings.len() && c.type_bindings[x.0 as int] is Unbound,
    decreases depth,
{
    if depth > 0 && extension is Some {
        let d = (depth - 1) as nat;
        match binding_of(extension->0, Map::empty(), c.type_bindings) {
            Some(Binding::Bound(Ty::Variable(v))) => {
                lemma_flatten_end(d, effects, Some(v), c);
            },
            Some(Binding::Bound(Ty::NamedGeneric(v, _))) => {
                lemma_flatten_end(d, effects, Some(v), c);
            },
            Some(Binding::Bound(Ty::Effects(more, end))) => {
                lemma_flatten_end(d, effects + more, end, c);
            },
            _ => {},
        }
    }
}

} // verus!
